//! Building a volume from a description of it.

use crate::block_io::BlockIO;
use crate::error::CrucibleError;
use crate::block::Cell;
use crate::layout::{block_count, block_start, exactly_fitted, span, subs_dependable};
use crate::dispatch::lemma_blocks_aligned;
use crate::sub_volume::SubVolume;
use std::ops::Range;
use crate::volume::Volume;
use vstd::prelude::*;

verus! {

/// How to reach a region: the addresses of its targets and the key
/// material for them.
#[derive(Debug, Clone, Default, PartialEq, Eq)]
pub struct CrucibleOpts {
    pub target: Vec<String>,
    pub lossy: bool,
    pub key: Option<String>,
    pub cert_pem: Option<String>,
    pub key_pem: Option<String>,
    pub root_cert_pem: Option<String>,
    pub control: Option<String>,
}

/// The description of a volume: a composite of further descriptions, or
/// one backend, either an image behind a URL, read only, or a region.
#[derive(Debug)]
pub enum VolumeConstructionRequest {
    Volume {
        block_size: u64,
        sub_volumes: Vec<VolumeConstructionRequest>,
        read_only_parent: Option<Box<VolumeConstructionRequest>>,
    },
    Url { block_size: u64, url: String },
    Region { block_size: u64, opts: CrucibleOpts, gen: u64 },
}

impl VolumeConstructionRequest {
    /// The block size that the description asks for.
    pub open spec fn block_bytes(&self) -> u64 {
        match self {
            VolumeConstructionRequest::Volume { block_size, .. } => *block_size,
            VolumeConstructionRequest::Url { block_size, .. } => *block_size,
            VolumeConstructionRequest::Region { block_size, .. } => *block_size,
        }
    }

    /// Whether the description is of one backend.
    pub open spec fn is_leaf(&self) -> bool {
        !(self is Volume)
    }

    /// One more than the number of sub-volumes of a composite; zero for
    /// one backend.
    pub open spec fn steps(&self) -> nat {
        match self {
            VolumeConstructionRequest::Volume { sub_volumes, .. } => sub_volumes@.len() + 1,
            _ => 0,
        }
    }

    /// The number of backends that the description names: those of the
    /// first `n` sub-volumes where it is a composite and `n` is no more
    /// than their number, and all, the parent's too, where `n` is more.
    pub open spec fn count_upto(&self, n: nat) -> nat
        decreases self, n,
    {
        match self {
            VolumeConstructionRequest::Volume { sub_volumes, read_only_parent, .. } => {
                if n == 0 {
                    0
                } else if n <= sub_volumes@.len() {
                    self.count_upto((n - 1) as nat) + sub_volumes@[n - 1].count_upto(
                        sub_volumes@[n - 1].steps(),
                    )
                } else {
                    self.count_upto(sub_volumes@.len()) + (match read_only_parent {
                        Some(parent) => parent.count_upto(parent.steps()),
                        None => 0,
                    })
                }
            },
            _ => 1,
        }
    }

    /// The number of backends that the description names.
    pub open spec fn leaf_count(&self) -> nat {
        self.count_upto(self.steps())
    }

    /// Whether the first `n` steps of the description ask for block
    /// sizes that are not zero; a step is a sub-volume, and the last the
    /// parent.
    pub open spec fn sized_upto(&self, n: nat) -> bool
        decreases self, n,
    {
        match self {
            VolumeConstructionRequest::Volume { block_size, sub_volumes, read_only_parent } => {
                if n == 0 {
                    *block_size > 0
                } else if n <= sub_volumes@.len() {
                    self.sized_upto((n - 1) as nat) && sub_volumes@[n - 1].sized_upto(
                        sub_volumes@[n - 1].steps(),
                    )
                } else {
                    self.sized_upto(sub_volumes@.len()) && (match read_only_parent {
                        Some(parent) => parent.sized_upto(parent.steps()),
                        None => true,
                    })
                }
            },
            VolumeConstructionRequest::Url { block_size, .. } => *block_size > 0,
            VolumeConstructionRequest::Region { block_size, .. } => *block_size > 0,
        }
    }

    /// Whether no block size that the description asks for is zero.
    pub open spec fn sized(&self) -> bool {
        self.sized_upto(self.steps())
    }

    /// Whether the backends that the first `n` steps of the description
    /// take from `supplied`, in order, are there and dependable, and each
    /// holds a whole number of the blocks asked of it, and no more bytes
    /// than a `u64` counts.
    pub open spec fn sound_upto(&self, n: nat, supplied: Seq<Supplied>) -> bool
        decreases self, n,
    {
        match self {
            VolumeConstructionRequest::Volume { sub_volumes, read_only_parent, .. } => {
                if n == 0 {
                    true
                } else if n <= sub_volumes@.len() {
                    &&& self.sound_upto((n - 1) as nat, supplied)
                    &&& sub_volumes@[n - 1].sound_upto(
                        sub_volumes@[n - 1].steps(),
                        supplied.skip(self.count_upto((n - 1) as nat) as int),
                    )
                } else {
                    &&& self.sound_upto(sub_volumes@.len(), supplied)
                    &&& match read_only_parent {
                        Some(parent) => parent.sound_upto(
                            parent.steps(),
                            supplied.skip(self.count_upto(sub_volumes@.len()) as int),
                        ),
                        None => true,
                    }
                }
            },
            _ => {
                &&& supplied.len() > 0
                &&& supplied[0] matches Ok(block_io)
                &&& block_io.profile().dependable
                &&& block_io.cells().len() <= u64::MAX
                &&& block_io.cells().len() % (self.block_bytes() as nat) == 0
            },
        }
    }

    /// Whether every backend that the description takes from `supplied`
    /// is there and dependable, and holds a whole number of the blocks
    /// asked of it.
    pub open spec fn sound(&self, supplied: Seq<Supplied>) -> bool {
        self.sound_upto(self.steps(), supplied)
    }

    /// Whether the first `n` steps of the description meet the block
    /// size they expect: a backend that of its description, and a
    /// composite that of each sub-volume and of the parent.
    pub open spec fn agrees_upto(&self, n: nat, supplied: Seq<Supplied>) -> bool
        decreases self, n,
    {
        match self {
            VolumeConstructionRequest::Volume { block_size, sub_volumes, read_only_parent } => {
                if n == 0 {
                    true
                } else if n <= sub_volumes@.len() {
                    &&& self.agrees_upto((n - 1) as nat, supplied)
                    &&& sub_volumes@[n - 1].agrees_upto(
                        sub_volumes@[n - 1].steps(),
                        supplied.skip(self.count_upto((n - 1) as nat) as int),
                    )
                    &&& sub_volumes@[n - 1].block_bytes() == *block_size
                } else {
                    &&& self.agrees_upto(sub_volumes@.len(), supplied)
                    &&& match read_only_parent {
                        Some(parent) => {
                            &&& parent.agrees_upto(
                                parent.steps(),
                                supplied.skip(self.count_upto(sub_volumes@.len()) as int),
                            )
                            &&& parent.block_bytes() == *block_size
                        },
                        None => true,
                    }
                }
            },
            _ => {
                &&& supplied.len() > 0
                &&& supplied[0] matches Ok(block_io)
                &&& block_io.profile().block_size == self.block_bytes()
            },
        }
    }

    /// Whether the whole description meets the block sizes it expects.
    pub open spec fn agrees(&self, supplied: Seq<Supplied>) -> bool {
        self.agrees_upto(self.steps(), supplied)
    }

    /// Whether each backend that the first `n` steps of the description
    /// take from `supplied`, where it was supplied, is dependable and holds
    /// a whole number of the blocks asked of it, and no more bytes than a
    /// `u64` counts. A backend that is missing, or in whose place an error
    /// was supplied, does not count.
    pub open spec fn fair_upto(&self, n: nat, supplied: Seq<Supplied>) -> bool
        decreases self, n,
    {
        match self {
            VolumeConstructionRequest::Volume { sub_volumes, read_only_parent, .. } => {
                if n == 0 {
                    true
                } else if n <= sub_volumes@.len() {
                    &&& self.fair_upto((n - 1) as nat, supplied)
                    &&& sub_volumes@[n - 1].fair_upto(
                        sub_volumes@[n - 1].steps(),
                        supplied.skip(self.count_upto((n - 1) as nat) as int),
                    )
                } else {
                    &&& self.fair_upto(sub_volumes@.len(), supplied)
                    &&& match read_only_parent {
                        Some(parent) => parent.fair_upto(
                            parent.steps(),
                            supplied.skip(self.count_upto(sub_volumes@.len()) as int),
                        ),
                        None => true,
                    }
                }
            },
            _ => supplied.len() > 0 ==> (supplied[0] matches Ok(block_io) ==> {
                &&& block_io.profile().dependable
                &&& block_io.cells().len() <= u64::MAX
                &&& block_io.cells().len() % (self.block_bytes() as nat) == 0
            }),
        }
    }

    /// Whether every backend supplied for the description is dependable
    /// and holds a whole number of the blocks asked of it, and no more
    /// bytes than a `u64` counts.
    pub open spec fn fair(&self, supplied: Seq<Supplied>) -> bool {
        self.fair_upto(self.steps(), supplied)
    }

    /// How the first `n` steps of building the volume from `supplied`
    /// end, where the backends supplied answer: with the first thing that
    /// goes wrong, taking the sub-volumes in order and the parent last,
    /// and each of them within before it joins; or built.
    pub open spec fn trial_upto(&self, n: nat, supplied: Seq<Supplied>) -> Outcome
        decreases self, n,
    {
        match self {
            VolumeConstructionRequest::Volume { block_size, sub_volumes, read_only_parent } => {
                if n == 0 {
                    Outcome::Built
                } else if n <= sub_volumes@.len() {
                    match self.trial_upto((n - 1) as nat, supplied) {
                        Outcome::Built => match sub_volumes@[n - 1].trial_upto(
                            sub_volumes@[n - 1].steps(),
                            supplied.skip(self.count_upto((n - 1) as nat) as int),
                        ) {
                            Outcome::Built => if sub_volumes@[n - 1].block_bytes() != *block_size {
                                Outcome::Mismatch
                            } else if self.bytes_upto(n, supplied) > u64::MAX {
                                Outcome::TooLarge
                            } else {
                                Outcome::Built
                            },
                            other => other,
                        },
                        other => other,
                    }
                } else {
                    match self.trial_upto(sub_volumes@.len(), supplied) {
                        Outcome::Built => match read_only_parent {
                            Some(parent) => match parent.trial_upto(
                                parent.steps(),
                                supplied.skip(self.count_upto(sub_volumes@.len()) as int),
                            ) {
                                Outcome::Built => if parent.block_bytes() != *block_size {
                                    Outcome::Mismatch
                                } else {
                                    Outcome::Built
                                },
                                other => other,
                            },
                            None => Outcome::Built,
                        },
                        other => other,
                    }
                }
            },
            _ => if supplied.len() == 0 {
                Outcome::Missing
            } else {
                match supplied[0] {
                    Ok(block_io) => if block_io.profile().block_size != self.block_bytes() {
                        Outcome::Mismatch
                    } else {
                        Outcome::Built
                    },
                    Err(e) => Outcome::Failed(e),
                }
            },
        }
    }

    /// How the building of the volume from `supplied` ends, where the
    /// backends supplied answer.
    pub open spec fn trial(&self, supplied: Seq<Supplied>) -> Outcome {
        self.trial_upto(self.steps(), supplied)
    }

    /// The bytes that the volume holds after the first `n` steps of
    /// building it from `supplied`: of each sub-volume its whole blocks,
    /// and, at the end, those of the parent where there is no sub-volume.
    /// A single backend gives its whole blocks.
    pub open spec fn bytes_upto(&self, n: nat, supplied: Seq<Supplied>) -> nat
        decreases self, n,
    {
        match self {
            VolumeConstructionRequest::Volume { block_size, sub_volumes, read_only_parent } => {
                if n == 0 {
                    0
                } else if n <= sub_volumes@.len() {
                    self.bytes_upto((n - 1) as nat, supplied) + whole_bytes(
                        sub_volumes@[n - 1].bytes_upto(
                            sub_volumes@[n - 1].steps(),
                            supplied.skip(self.count_upto((n - 1) as nat) as int),
                        ),
                        *block_size,
                    )
                } else if sub_volumes@.len() > 0 {
                    self.bytes_upto(sub_volumes@.len(), supplied)
                } else {
                    match read_only_parent {
                        Some(parent) => whole_bytes(
                            parent.bytes_upto(parent.steps(), supplied),
                            *block_size,
                        ),
                        None => 0,
                    }
                }
            },
            _ => if supplied.len() > 0 {
                match supplied[0] {
                    Ok(block_io) => whole_bytes(block_io.cells().len(), self.block_bytes()),
                    Err(_) => 0,
                }
            } else {
                0
            },
        }
    }

    /// The bytes that the volume built from `supplied` holds.
    pub open spec fn bytes(&self, supplied: Seq<Supplied>) -> nat {
        self.bytes_upto(self.steps(), supplied)
    }

    /// The cell at byte `at` of the volume built from `supplied`, as far
    /// as the first `n` steps make it: the cell of the sub-volume that
    /// holds the byte, or the parent's where the parent reaches the byte
    /// and the sub-volume does not own the first byte of its block; of a
    /// volume without sub-volumes, the parent's; of a single backend, its
    /// own.
    pub open spec fn cell_upto(&self, n: nat, supplied: Seq<Supplied>, at: int) -> Cell
        decreases self, n,
    {
        match self {
            VolumeConstructionRequest::Volume { block_size, sub_volumes, read_only_parent } => {
                if n == 0 {
                    arbitrary()
                } else if n <= sub_volumes@.len() {
                    let from = self.bytes_upto((n - 1) as nat, supplied);
                    if at < from {
                        self.cell_upto((n - 1) as nat, supplied, at)
                    } else {
                        let rest = supplied.skip(self.count_upto((n - 1) as nat) as int);
                        let own = sub_volumes@[n - 1].cell_upto(
                            sub_volumes@[n - 1].steps(),
                            rest,
                            at - from,
                        );
                        let lead = sub_volumes@[n - 1].cell_upto(
                            sub_volumes@[n - 1].steps(),
                            rest,
                            block_start(at - from, *block_size as int),
                        );
                        match read_only_parent {
                            Some(parent) => {
                                let last = supplied.skip(
                                    self.count_upto(sub_volumes@.len()) as int,
                                );
                                if !lead.1 && at < whole_bytes(
                                    parent.bytes_upto(parent.steps(), last),
                                    *block_size,
                                ) {
                                    parent.cell_upto(parent.steps(), last, at)
                                } else {
                                    own
                                }
                            },
                            None => own,
                        }
                    }
                } else if sub_volumes@.len() > 0 {
                    self.cell_upto(sub_volumes@.len(), supplied, at)
                } else {
                    match read_only_parent {
                        Some(parent) => parent.cell_upto(parent.steps(), supplied, at),
                        None => arbitrary(),
                    }
                }
            },
            _ => if supplied.len() > 0 {
                match supplied[0] {
                    Ok(block_io) => block_io.cells()[at],
                    Err(_) => arbitrary(),
                }
            } else {
                arbitrary()
            },
        }
    }

    /// The cell at byte `at` of the volume built from `supplied`.
    pub open spec fn cell(&self, supplied: Seq<Supplied>, at: int) -> Cell {
        self.cell_upto(self.steps(), supplied, at)
    }

    /// Whether, in the first `n` steps of building it from `supplied`, no
    /// volume comes to hold more bytes than a `u64` counts.
    pub open spec fn fits_upto(&self, n: nat, supplied: Seq<Supplied>) -> bool
        decreases self, n,
    {
        match self {
            VolumeConstructionRequest::Volume { sub_volumes, read_only_parent, .. } => {
                if n == 0 {
                    true
                } else if n <= sub_volumes@.len() {
                    &&& self.fits_upto((n - 1) as nat, supplied)
                    &&& sub_volumes@[n - 1].fits_upto(
                        sub_volumes@[n - 1].steps(),
                        supplied.skip(self.count_upto((n - 1) as nat) as int),
                    )
                    &&& self.bytes_upto(n, supplied) <= u64::MAX
                } else {
                    &&& self.fits_upto(sub_volumes@.len(), supplied)
                    &&& match read_only_parent {
                        Some(parent) => parent.fits_upto(
                            parent.steps(),
                            supplied.skip(self.count_upto(sub_volumes@.len()) as int),
                        ),
                        None => true,
                    }
                }
            },
            _ => true,
        }
    }

    /// Whether no volume built from `supplied` comes to hold more bytes
    /// than a `u64` counts.
    pub open spec fn fits(&self, supplied: Seq<Supplied>) -> bool {
        self.fits_upto(self.steps(), supplied)
    }
}

/// How the building of a volume ends.
pub enum Outcome {
    /// The volume is built.
    Built,
    /// A backend, a sub-volume or a parent does not have the block size
    /// of what it joins.
    Mismatch,
    /// A volume would hold more bytes than a `u64` counts.
    TooLarge,
    /// No backend is left where one is needed.
    Missing,
    /// An error was supplied in place of a backend.
    Failed(CrucibleError),
}

/// Whether `r` is what the building returns where it ends as `outcome`:
/// the volume; `BlockSizeMismatch`; `GenericError` for a volume too large
/// or a backend missing; or the error supplied, as it is.
pub open spec fn ends_as(r: Result<Volume, CrucibleError>, outcome: Outcome) -> bool {
    match outcome {
        Outcome::Built => r is Ok,
        Outcome::Mismatch => r == Err::<Volume, CrucibleError>(CrucibleError::BlockSizeMismatch),
        Outcome::TooLarge => r matches Err(CrucibleError::GenericError(_)),
        Outcome::Missing => r matches Err(CrucibleError::GenericError(_)),
        Outcome::Failed(e) => r == Err::<Volume, CrucibleError>(e),
    }
}

/// The bytes of the whole blocks of `block_size` bytes among `bytes`.
pub open spec fn whole_bytes(bytes: nat, block_size: u64) -> nat {
    (bytes / (block_size as nat)) * (block_size as nat)
}

/// What was supplied for one backend of a description: the backend, or
/// the error that kept it from being opened.
pub type Supplied = Result<Box<dyn BlockIO>, CrucibleError>;

/// Whether `volume` has the shape that `request` describes: its block
/// size, as many sub-volumes as it lists, one for a single backend, and a
/// parent where it names one.
pub open spec fn shaped(volume: Volume, request: VolumeConstructionRequest) -> bool {
    &&& volume.block_bytes() == request.block_bytes()
    &&& match request {
        VolumeConstructionRequest::Volume { sub_volumes, read_only_parent, .. } => {
            &&& volume.sub_volumes().len() == sub_volumes@.len()
            &&& volume.read_only_parent() is Some <==> read_only_parent is Some
        },
        _ => volume.sub_volumes().len() == 1 && volume.read_only_parent() is None,
    }
}

/// Whether `cells` are the cells of the volume built from `request` and
/// `supplied`.
pub open spec fn holds_built(
    cells: Seq<Cell>,
    request: VolumeConstructionRequest,
    supplied: Seq<Supplied>,
) -> bool {
    &&& cells.len() == request.bytes(supplied)
    &&& forall|at: int|
        0 <= at < request.bytes(supplied) ==> #[trigger] cells[at] == request.cell(supplied, at)
}

/// Whether `part` is over what was built from `request` and lies from
/// block `first` on: it has as many blocks as that holds whole, and its
/// backend has the block size that `request` asks for and holds the
/// cells of what was built.
pub open spec fn built_from(
    part: SubVolume,
    first: nat,
    block_size: u64,
    request: VolumeConstructionRequest,
    supplied: Seq<Supplied>,
) -> bool {
    &&& part.lba_range == (Range {
        start: first as u64,
        end: (first + request.bytes(supplied) / (block_size as nat)) as u64,
    })
    &&& first + request.bytes(supplied) / (block_size as nat) <= u64::MAX
    &&& part.block_io.profile().block_size == request.block_bytes()
    &&& holds_built(part.block_io.cells(), request, supplied)
}

/// Whether the parts of `volume` are those that `request` describes, in
/// its order and built from `supplied`. For a composite, the sub-volume
/// at `i` is over what was built from the description at `i`, with the
/// backends that follow those of the descriptions before it, and lies
/// where the sub-volumes before it end; the parent is over what was
/// built from the parent's description and lies from block 0 on. For a
/// single backend, the one sub-volume is the backend supplied, from block
/// 0 on, in its whole blocks.
pub open spec fn laid_out(
    volume: Volume,
    request: VolumeConstructionRequest,
    supplied: Seq<Supplied>,
) -> bool {
    match request {
        VolumeConstructionRequest::Volume { block_size, sub_volumes, read_only_parent } => {
            &&& volume.sub_volumes().len() == sub_volumes@.len()
            &&& forall|i: int|
                0 <= i < sub_volumes@.len() ==> built_from(
                    #[trigger] volume.sub_volumes()[i],
                    request.bytes_upto(i as nat, supplied) / (block_size as nat),
                    block_size,
                    sub_volumes@[i],
                    supplied.skip(request.count_upto(i as nat) as int),
                )
            &&& match read_only_parent {
                Some(parent) => volume.read_only_parent() matches Some(part) && built_from(
                    part,
                    0,
                    block_size,
                    *parent,
                    supplied.skip(request.count_upto(sub_volumes@.len()) as int),
                ),
                None => volume.read_only_parent() is None,
            }
        },
        _ => {
            &&& supplied.len() > 0
            &&& supplied[0] matches Ok(block_io)
            &&& volume.sub_volumes().len() == 1
            &&& volume.read_only_parent() is None
            &&& volume.sub_volumes()[0].block_io == block_io
            &&& volume.sub_volumes()[0].lba_range == (Range {
                start: 0u64,
                end: (block_io.cells().len() / (request.block_bytes() as nat)) as u64,
            })
        },
    }
}

/// What holds of the first steps of a description holds of fewer, and
/// fewer steps take no more backends.
pub proof fn lemma_fewer_steps(
    request: VolumeConstructionRequest,
    n: nat,
    m: nat,
    supplied: Seq<Supplied>,
)
    requires
        n <= m <= request.steps(),
    ensures
        request.sized_upto(m) ==> request.sized_upto(n),
        request.sound_upto(m, supplied) ==> request.sound_upto(n, supplied),
        request.agrees_upto(m, supplied) ==> request.agrees_upto(n, supplied),
        request.fits_upto(m, supplied) ==> request.fits_upto(n, supplied),
        request.fair_upto(m, supplied) ==> request.fair_upto(n, supplied),
        !(request.trial_upto(n, supplied) is Built) ==> request.trial_upto(m, supplied)
            == request.trial_upto(n, supplied),
        request.count_upto(n) <= request.count_upto(m),
    decreases m - n,
{
    if n < m {
        lemma_fewer_steps(request, n, (m - 1) as nat, supplied);
    }
}

/// What the first steps of a composite make of a byte, further steps
/// leave as it is; and further steps add no fewer bytes.
pub proof fn lemma_cell_steps(
    request: VolumeConstructionRequest,
    n: nat,
    m: nat,
    supplied: Seq<Supplied>,
    at: int,
)
    requires
        request matches VolumeConstructionRequest::Volume { sub_volumes, .. } && m
            <= sub_volumes@.len(),
        n <= m,
    ensures
        request.bytes_upto(n, supplied) <= request.bytes_upto(m, supplied),
        at < request.bytes_upto(n, supplied) ==> request.cell_upto(m, supplied, at)
            == request.cell_upto(n, supplied, at),
    decreases m - n,
{
    if n < m {
        lemma_cell_steps(request, n, (m - 1) as nat, supplied, at);
    }
}

/// A byte of a composite that was built, with sub-volumes and a parent
/// that hold what was built for them and lie where they belong, is what
/// the description makes of it.
pub proof fn lemma_built_cell(
    subs: Seq<SubVolume>,
    parent: Option<SubVolume>,
    request: VolumeConstructionRequest,
    supplied: Seq<Supplied>,
    at: int,
)
    requires
        request matches VolumeConstructionRequest::Volume {
            block_size,
            sub_volumes,
            read_only_parent,
        } && {
            &&& crate::layout::well_formed(subs, parent, block_size)
            &&& subs.len() == sub_volumes@.len()
            &&& forall|j: int|
                0 <= j < subs.len() ==> (#[trigger] subs[j]).lba_range.start * block_size
                    == request.bytes_upto(j as nat, supplied) && subs[j].lba_range.end * block_size
                    == request.bytes_upto(j as nat + 1, supplied)
            &&& forall|j: int|
                0 <= j < subs.len() ==> holds_built(
                    (#[trigger] subs[j]).block_io.cells(),
                    sub_volumes@[j],
                    supplied.skip(request.count_upto(j as nat) as int),
                )
            &&& match read_only_parent {
                Some(described) => parent matches Some(part) && built_from(
                    part,
                    0,
                    block_size,
                    *described,
                    supplied.skip(request.count_upto(sub_volumes@.len()) as int),
                ),
                None => parent is None,
            }
        },
        0 <= at < request.bytes(supplied),
    ensures
        crate::layout::layered(subs, parent, request.block_bytes())[at] == request.cell(
            supplied,
            at,
        ),
{
    let block_size = request->Volume_block_size;
    let sub_volumes = request->Volume_sub_volumes;
    let read_only_parent = request->Volume_read_only_parent;
    let bs = block_size as int;
    let len = sub_volumes@.len();
    if len == 0 {
        match read_only_parent {
            Some(described) => {
                assert(supplied.skip(0) =~= supplied);
                let part = parent.unwrap();
                assert(crate::layout::fitted(part, block_size));
            },
            None => {},
        }
    } else {
        crate::layout::lemma_block_count_is_end(subs);
        assert(subs.last() == subs[len - 1]);
        assert(request.bytes(supplied) == request.bytes_upto(len, supplied));
        crate::layering::lemma_holder_exists(subs, block_size, at);
        let j = crate::layout::holder(subs, block_size, at);
        let sv = subs[j];
        let from = request.bytes_upto(j as nat, supplied);
        assert(from <= at < request.bytes_upto(j as nat + 1, supplied));
        lemma_cell_steps(request, j as nat + 1, len, supplied, at);
        assert(request.cell(supplied, at) == request.cell_upto(j as nat + 1, supplied, at));
        let rest = supplied.skip(request.count_upto(j as nat) as int);
        let local = at - from;
        assert(holds_built(sv.block_io.cells(), sub_volumes@[j], rest));
        assert(crate::layout::fitted(sv, block_size));
        crate::layering::lemma_part_bytes(
            sv.lba_range.start as int,
            sv.lba_range.start as int,
            sv.lba_range.end as int,
            sv.lba_range.end as int,
            bs,
        );
        crate::layering::lemma_block_start_side(0, local, bs);
        assert(sub_volumes@[j].bytes(rest) >= request.bytes_upto(j as nat + 1, supplied) - from);
        match read_only_parent {
            Some(described) => {
                let part = parent.unwrap();
                let last = supplied.skip(request.count_upto(len) as int);
                assert(crate::layout::fitted(part, block_size));
                assert(part.lba_range.end * block_size == whole_bytes(
                    described.bytes(last),
                    block_size,
                ));
            },
            None => {},
        }
    }
}

/// Skipping some, and then some more, is skipping all of them at once.
pub proof fn lemma_skip_twice(supplied: Seq<Supplied>, first: nat, then: nat)
    requires
        first + then <= supplied.len(),
    ensures
        supplied.skip(first as int).skip(then as int) == supplied.skip((first + then) as int),
{
    assert(supplied.skip(first as int).skip(then as int) =~= supplied.skip((first + then) as int));
}

/// Takes the first of the supplied backends out of the list.
fn take_first(backends: &mut Vec<Supplied>) -> (r: Result<Box<dyn BlockIO>, CrucibleError>)
    ensures
        old(backends)@.len() == 0 ==> (r matches Err(CrucibleError::GenericError(_)))
            && final(backends)@ == old(backends)@,
        old(backends)@.len() > 0 ==> r == old(backends)@[0] && final(backends)@ == old(
            backends,
        )@.skip(1),
{
    if backends.len() == 0 {
        return Err(CrucibleError::GenericError("no backend supplied".to_owned()));
    }
    let first = backends.remove(0);
    assert(backends@ =~= old(backends)@.skip(1));
    first
}

/// Builds the volume that `request` describes from the backends
/// supplied, which it takes from the front of `backends`.
fn build(request: &VolumeConstructionRequest, backends: &mut Vec<Supplied>) -> (r: Result<
    Volume,
    CrucibleError,
>)
    requires
        request.sized(),
    ensures
        r matches Ok(volume) ==> {
            &&& volume.wf()
            &&& shaped(volume, *request)
            &&& laid_out(volume, *request, old(backends)@)
            &&& request.agrees(old(backends)@)
            &&& old(backends)@.len() >= request.leaf_count()
            &&& final(backends)@ == old(backends)@.skip(request.leaf_count() as int)
            &&& holds_built(volume.cells(), *request, old(backends)@)
            &&& request.sound(old(backends)@) ==> volume.profile().dependable
            &&& request.fair(old(backends)@) ==> volume.profile().dependable
        },
        request.sound(old(backends)@) ==> (r matches Err(e) ==> (e
            == CrucibleError::BlockSizeMismatch && !request.agrees(old(backends)@)) || (
        e matches CrucibleError::GenericError(_) && !request.fits(old(backends)@))),
        request.fair(old(backends)@) ==> ends_as(r, request.trial(old(backends)@)),
    decreases request,
{
    let ghost supplied = backends@;
    match request {
        VolumeConstructionRequest::Volume { block_size, sub_volumes, read_only_parent } => {
            proof {
                lemma_fewer_steps(*request, 0, request.steps(), supplied);
            }
            let mut vol = Volume::new(*block_size);
            proof {
                assert(block_count(vol.sub_volumes()) == 0);
                assert(0 * *block_size == 0) by (nonlinear_arith);
            }
            let mut i: usize = 0;
            while i < sub_volumes.len()
                invariant
                    i <= sub_volumes@.len(),
                    *request == (VolumeConstructionRequest::Volume {
                        block_size: *block_size,
                        sub_volumes: *sub_volumes,
                        read_only_parent: *read_only_parent,
                    }),
                    request.sized(),
                    *block_size > 0,
                    supplied == old(backends)@,
                    vol.block_bytes() == *block_size,
                    vol.sub_volumes().len() == i,
                    vol.read_only_parent() is None,
                    request.agrees_upto(i as nat, supplied),
                    supplied.len() >= request.count_upto(i as nat),
                    backends@ == supplied.skip(request.count_upto(i as nat) as int),
                    block_count(vol.sub_volumes()) * *block_size == request.bytes_upto(
                        i as nat,
                        supplied,
                    ),
                    forall|j: int|
                        0 <= j < i ==> (#[trigger] vol.sub_volumes()[j]).lba_range.start
                            * *block_size == request.bytes_upto(j as nat, supplied)
                            && vol.sub_volumes()[j].lba_range.end * *block_size
                            == request.bytes_upto(j as nat + 1, supplied),
                    forall|j: int|
                        0 <= j < i ==> built_from(
                            #[trigger] vol.sub_volumes()[j],
                            request.bytes_upto(j as nat, supplied) / (*block_size as nat),
                            *block_size,
                            sub_volumes@[j],
                            supplied.skip(request.count_upto(j as nat) as int),
                        ),
                    request.sound(supplied) ==> subs_dependable(vol.sub_volumes())
                        && exactly_fitted(vol.sub_volumes(), *block_size),
                    request.fair(supplied) ==> subs_dependable(vol.sub_volumes())
                        && exactly_fitted(vol.sub_volumes(), *block_size)
                        && request.trial_upto(i as nat, supplied) is Built,
                decreases sub_volumes@.len() - i,
            {
                let ghost taken = request.count_upto(i as nat);
                proof {
                    lemma_fewer_steps(*request, i as nat + 1, request.steps(), supplied);
                }
                let child = match build(&sub_volumes[i], backends) {
                    Ok(child) => child,
                    Err(e) => {
                        return Err(e);
                    },
                };
                proof {
                    lemma_skip_twice(supplied, taken, sub_volumes@[i as int].leaf_count());
                    child.lemma_whole();
                }
                let ghost before = vol.sub_volumes();
                let ghost first = block_count(before);
                let ghost blocks = child.cells().len() / (*block_size as nat);
                proof {
                    assert((first + blocks) * *block_size == first * *block_size + blocks
                        * *block_size) by (nonlinear_arith);
                    assert(request.bytes_upto(i as nat + 1, supplied) == (first + blocks)
                        * *block_size);
                }
                let part = child.into_part();
                match vol.append(part) {
                    Ok(_) => {},
                    Err(e) => {
                        return Err(e);
                    },
                }
                proof {
                    let added = vol.sub_volumes().last();
                    assert(vol.sub_volumes() =~= before.push(added));
                    assert(vol.sub_volumes().drop_last() =~= before);
                    assert(added.block_io == part.block_io);
                    assert(span(added) == blocks);
                    if request.sound(supplied) || request.fair(supplied) {
                        lemma_push_dependable(before, added, *block_size);
                    }
                    lemma_blocks_aligned(first as int, *block_size as int);
                    assert forall|j: int| 0 <= j < i + 1 implies (#[trigger] vol.sub_volumes()[j])
                        .lba_range.start * *block_size == request.bytes_upto(j as nat, supplied)
                        && vol.sub_volumes()[j].lba_range.end * *block_size
                        == request.bytes_upto(j as nat + 1, supplied) by {
                        if j < i {
                            assert(vol.sub_volumes()[j] == before[j]);
                        }
                    }
                    assert forall|j: int| 0 <= j < i + 1 implies built_from(
                        #[trigger] vol.sub_volumes()[j],
                        request.bytes_upto(j as nat, supplied) / (*block_size as nat),
                        *block_size,
                        sub_volumes@[j],
                        supplied.skip(request.count_upto(j as nat) as int),
                    ) by {
                        if j < i {
                            assert(vol.sub_volumes()[j] == before[j]);
                        }
                    }
                }
                i = i + 1;
            }
            let ghost taken = request.count_upto(sub_volumes@.len());
            if let Some(read_only_parent) = read_only_parent {
                let child = match build(read_only_parent, backends) {
                    Ok(child) => child,
                    Err(e) => {
                        return Err(e);
                    },
                };
                proof {
                    lemma_skip_twice(supplied, taken, read_only_parent.leaf_count());
                    child.lemma_whole();
                }
                let part = child.into_part();
                match vol.install(part) {
                    Ok(_) => {},
                    Err(e) => {
                        return Err(e);
                    },
                }
                proof {
                    assert(supplied.skip(0) =~= supplied);
                    let placed = vol.read_only_parent().unwrap();
                    assert(span(placed) == child.cells().len() / (*block_size as nat));
                    assert(built_from(
                        placed,
                        0,
                        *block_size,
                        **read_only_parent,
                        supplied.skip(taken as int),
                    ));
                }
            }
            proof {
                use_type_invariant(&vol);
                vol.lemma_wf();
                vol.lemma_whole();
                assert(vol.cells().len() == request.bytes(supplied));
                assert forall|at: int| 0 <= at < request.bytes(supplied) implies #[trigger] vol.cells()[at]
                    == request.cell(supplied, at) by {
                    lemma_built_cell(
                        vol.sub_volumes(),
                        vol.read_only_parent(),
                        *request,
                        supplied,
                        at,
                    );
                }
            }
            Ok(vol)
        },
        _ => {
            let mut vol = Volume::new(request.block_size());
            let block_io = match take_first(backends) {
                Ok(block_io) => block_io,
                Err(e) => {
                    return Err(e);
                },
            };
            let part = SubVolume { lba_range: 0..0, block_io };
            let ghost before = vol.sub_volumes();
            proof {
                assert(block_count(before) == 0);
                crate::volume::lemma_whole_blocks(
                    block_io.cells().len() as int,
                    request.block_bytes() as int,
                );
            }
            match vol.append(part) {
                Ok(_) => {},
                Err(e) => {
                    return Err(e);
                },
            }
            proof {
                let added = vol.sub_volumes().last();
                assert(vol.sub_volumes() =~= before.push(added));
                assert(vol.sub_volumes().drop_last() =~= before);
                assert(span(added) == block_io.cells().len() / (request.block_bytes() as nat));
                assert(block_count(before) == 0);
                use_type_invariant(&vol);
                vol.lemma_wf();
                vol.lemma_whole();
                assert forall|at: int| 0 <= at < request.bytes(supplied) implies #[trigger] vol.cells()[at]
                    == request.cell(supplied, at) by {
                    crate::layering::lemma_without_parent(
                        vol.sub_volumes(),
                        request.block_bytes(),
                        at,
                    );
                    assert(0 * request.block_bytes() == 0) by (nonlinear_arith);
                    crate::layout::lemma_holder_unique(
                        vol.sub_volumes(),
                        request.block_bytes(),
                        0,
                        at,
                    );
                }
                if request.sound(supplied) || request.fair(supplied) {
                    vstd::arithmetic::div_mod::lemma_fundamental_div_mod(
                        block_io.cells().len() as int,
                        request.block_bytes() as int,
                    );
                    assert(block_io.cells().len() / (request.block_bytes() as nat)
                        * request.block_bytes() == block_io.cells().len()) by (nonlinear_arith)
                        requires
                            block_io.cells().len() as int == request.block_bytes() * (
                            block_io.cells().len() as int / request.block_bytes() as int) + 0,
                    ;
                    let added = vol.sub_volumes().last();
                    assert(vol.sub_volumes() =~= before.push(added));
                    assert(added.block_io == part.block_io);
                    assert(span(added) == part.block_io.cells().len() / (
                    request.block_bytes() as nat));
                    lemma_push_dependable(before, added, request.block_bytes());
                }
                use_type_invariant(&vol);
            }
            Ok(vol)
        },
    }
}

/// A dependable backend that holds just the blocks of its range keeps
/// sub-volumes that are so when it joins them.
proof fn lemma_push_dependable(subs: Seq<SubVolume>, added: SubVolume, block_size: u64)
    requires
        subs_dependable(subs),
        exactly_fitted(subs, block_size),
        added.block_io.profile().dependable,
        span(added) * block_size == added.block_io.cells().len(),
    ensures
        subs_dependable(subs.push(added)),
        exactly_fitted(subs.push(added), block_size),
{
    let grown = subs.push(added);
    assert forall|i: int| 0 <= i < grown.len() implies (#[trigger] grown[i])
        .block_io.profile().dependable by {
        if i < subs.len() {
            assert(grown[i] == subs[i]);
        }
    }
    assert forall|i: int| 0 <= i < grown.len() implies span(#[trigger] grown[i]) * block_size
        == grown[i].block_io.cells().len() by {
        if i < subs.len() {
            assert(grown[i] == subs[i]);
        }
    }
}

impl VolumeConstructionRequest {
    /// The block size that the description asks for.
    pub fn block_size(&self) -> (block_size: u64)
        ensures
            block_size == self.block_bytes(),
    {
        match self {
            VolumeConstructionRequest::Volume { block_size, .. } => *block_size,
            VolumeConstructionRequest::Url { block_size, .. } => *block_size,
            VolumeConstructionRequest::Region { block_size, .. } => *block_size,
        }
    }
}

impl VolumeConstructionRequest {
    /// The descriptions of single backends that the first `n` steps of
    /// the description name, in the order in which a volume is built from
    /// them: those of each sub-volume, in order, then those of the parent.
    pub open spec fn leaves_upto(&self, n: nat) -> Seq<VolumeConstructionRequest>
        decreases self, n,
    {
        match self {
            VolumeConstructionRequest::Volume { sub_volumes, read_only_parent, .. } => {
                if n == 0 {
                    Seq::empty()
                } else if n <= sub_volumes@.len() {
                    self.leaves_upto((n - 1) as nat) + sub_volumes@[n - 1].leaves_upto(
                        sub_volumes@[n - 1].steps(),
                    )
                } else {
                    self.leaves_upto(sub_volumes@.len()) + (match read_only_parent {
                        Some(parent) => parent.leaves_upto(parent.steps()),
                        None => Seq::empty(),
                    })
                }
            },
            _ => seq![*self],
        }
    }

    /// The descriptions of single backends that the description names,
    /// in the order in which a volume is built from them.
    pub open spec fn all_leaves(&self) -> Seq<VolumeConstructionRequest> {
        self.leaves_upto(self.steps())
    }

    /// There are as many descriptions of single backends as backends
    /// counted, and each describes a single backend.
    pub proof fn lemma_leaves(&self, n: nat)
        requires
            n <= self.steps(),
        ensures
            self.leaves_upto(n).len() == self.count_upto(n),
            forall|k: int| 0 <= k < self.leaves_upto(n).len() ==> (#[trigger] self.leaves_upto(n)[k]).is_leaf(),
        decreases self, n,
    {
        match self {
            VolumeConstructionRequest::Volume { sub_volumes, read_only_parent, .. } => {
                if n == 0 {
                } else if n <= sub_volumes@.len() {
                    self.lemma_leaves((n - 1) as nat);
                    sub_volumes@[n - 1].lemma_leaves(sub_volumes@[n - 1].steps());
                } else {
                    self.lemma_leaves(sub_volumes@.len());
                    if let Some(parent) = read_only_parent {
                        parent.lemma_leaves(parent.steps());
                    }
                }
            },
            _ => {},
        }
    }

    /// Adds to `found` the descriptions of single backends that the
    /// description names.
    fn collect<'a>(&'a self, found: &mut Vec<&'a VolumeConstructionRequest>)
        ensures
            final(found)@.len() == old(found)@.len() + self.all_leaves().len(),
            forall|k: int| 0 <= k < old(found)@.len() ==> final(found)@[k] == old(found)@[k],
            forall|k: int|
                0 <= k < self.all_leaves().len() ==> *(#[trigger] final(found)@[old(found)@.len()
                    + k]) == self.all_leaves()[k],
        decreases self,
    {
        match self {
            VolumeConstructionRequest::Volume { sub_volumes, read_only_parent, .. } => {
                let mut i: usize = 0;
                while i < sub_volumes.len()
                    invariant
                        i <= sub_volumes@.len(),
                        self matches VolumeConstructionRequest::Volume {
                            sub_volumes: subs,
                            read_only_parent: parent,
                            ..
                        } && subs == *sub_volumes && parent == *read_only_parent,
                        found@.len() == old(found)@.len() + self.leaves_upto(i as nat).len(),
                        forall|k: int| 0 <= k < old(found)@.len() ==> found@[k] == old(found)@[k],
                        forall|k: int|
                            0 <= k < self.leaves_upto(i as nat).len() ==> *(#[trigger] found@[old(
                                found,
                            )@.len() + k]) == self.leaves_upto(i as nat)[k],
                    decreases sub_volumes@.len() - i,
                {
                    let ghost before = found@;
                    sub_volumes[i].collect(found);
                    proof {
                        let done = self.leaves_upto(i as nat);
                        let more = sub_volumes@[i as int].all_leaves();
                        assert(self.leaves_upto(i as nat + 1) == done + more);
                        assert forall|k: int| 0 <= k < (done + more).len() implies *(
                        #[trigger] found@[old(found)@.len() + k]) == (done + more)[k] by {
                            if k < done.len() {
                                assert(found@[old(found)@.len() + k] == before[old(found)@.len()
                                    + k]);
                            } else {
                                assert(*found@[before.len() + (k - done.len())] == more[k
                                    - done.len()]);
                            }
                        }
                    }
                    i = i + 1;
                }
                if let Some(parent) = read_only_parent {
                    let ghost before = found@;
                    parent.collect(found);
                    proof {
                        let done = self.leaves_upto(sub_volumes@.len());
                        let more = parent.all_leaves();
                        assert(self.all_leaves() == done + more);
                        assert forall|k: int| 0 <= k < (done + more).len() implies *(
                        #[trigger] found@[old(found)@.len() + k]) == (done + more)[k] by {
                            if k < done.len() {
                                assert(found@[old(found)@.len() + k] == before[old(found)@.len()
                                    + k]);
                            } else {
                                assert(*found@[before.len() + (k - done.len())] == more[k
                                    - done.len()]);
                            }
                        }
                    }
                } else {
                    assert(self.all_leaves() =~= self.leaves_upto(sub_volumes@.len()));
                }
            },
            _ => {
                found.push(self);
            },
        }
    }

    /// The descriptions of single backends that the description names,
    /// in the order in which `Volume::construct` takes the backends
    /// supplied for them.
    pub fn leaves(&self) -> (found: Vec<&VolumeConstructionRequest>)
        ensures
            found@.len() == self.leaf_count(),
            found@.len() == self.all_leaves().len(),
            forall|k: int|
                0 <= k < found@.len() ==> *(#[trigger] found@[k]) == self.all_leaves()[k]
                    && found@[k].is_leaf(),
    {
        let mut found: Vec<&VolumeConstructionRequest> = Vec::new();
        self.collect(&mut found);
        proof {
            self.lemma_leaves(self.steps());
            assert forall|k: int| 0 <= k < found@.len() implies *(#[trigger] found@[k])
                == self.all_leaves()[k] && found@[k].is_leaf() by {
                assert(*found@[0 + k] == self.all_leaves()[k]);
            }
        }
        found
    }

    /// Whether no block size that the description asks for is zero.
    pub fn is_sized(&self) -> (sized: bool)
        ensures
            sized == self.sized(),
        decreases self,
    {
        match self {
            VolumeConstructionRequest::Volume { block_size, sub_volumes, read_only_parent } => {
                if *block_size == 0 {
                    proof {
                        lemma_fewer_steps(*self, 0, self.steps(), Seq::empty());
                    }
                    return false;
                }
                let mut i: usize = 0;
                while i < sub_volumes.len()
                    invariant
                        i <= sub_volumes@.len(),
                        self matches VolumeConstructionRequest::Volume {
                            sub_volumes: subs,
                            read_only_parent: parent,
                            ..
                        } && subs == *sub_volumes && parent == *read_only_parent,
                        self.sized_upto(i as nat),
                    decreases sub_volumes@.len() - i,
                {
                    if !sub_volumes[i].is_sized() {
                        proof {
                            lemma_fewer_steps(*self, i as nat + 1, self.steps(), Seq::empty());
                        }
                        return false;
                    }
                    i = i + 1;
                }
                match read_only_parent {
                    Some(parent) => parent.is_sized(),
                    None => true,
                }
            },
            VolumeConstructionRequest::Url { block_size, .. } => *block_size > 0,
            VolumeConstructionRequest::Region { block_size, .. } => *block_size > 0,
        }
    }
}

impl Volume {
    /// Builds the volume that `request` describes. The backends that the
    /// description names are not opened here: `backends` holds, for each
    /// of `request.leaves()` and in that order, the backend that was
    /// opened for it, or the error that kept it from being opened.
    ///
    /// A composite becomes a volume of its block size, with one
    /// sub-volume for each description that it lists, in order, and with
    /// its parent, each built in turn; a single backend becomes a volume
    /// whose only sub-volume it is. `laid_out` says where each part lies
    /// and what it is over, and `holds_built` what the volume holds.
    ///
    /// The first failure ends the building and is returned: the error
    /// supplied in place of a backend, `BlockSizeMismatch` where a
    /// backend, a sub-volume or a parent does not have the block size of
    /// what it joins, `GenericError` where a backend is missing or a
    /// volume would hold more bytes than a `u64` counts, and a backend's
    /// own error where it does not answer. Where the backends supplied
    /// are dependable (`fair`), `trial` says which of these it is.
    pub fn construct(request: VolumeConstructionRequest, backends: Vec<Supplied>) -> (r: Result<
        Volume,
        CrucibleError,
    >)
        requires
            request.sized(),
        ensures
            r matches Ok(volume) ==> {
                &&& volume.wf()
                &&& shaped(volume, request)
                &&& laid_out(volume, request, backends@)
                &&& request.agrees(backends@)
                &&& backends@.len() >= request.leaf_count()
                &&& holds_built(volume.cells(), request, backends@)
                &&& request.fair(backends@) ==> volume.profile().dependable
            },
            request.fair(backends@) ==> ends_as(r, request.trial(backends@)),
            request.sound(backends@) ==> (r matches Err(e) ==> (e
                == CrucibleError::BlockSizeMismatch && !request.agrees(backends@)) || (
            e matches CrucibleError::GenericError(_) && !request.fits(backends@))),
            request.sound(backends@) && request.agrees(backends@) && request.fits(backends@)
                ==> r is Ok,
    {
        let mut backends = backends;
        build(&request, &mut backends)
    }
}

} // verus!
