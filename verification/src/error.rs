use vstd::prelude::*;

verus! {

/// Everything that can go wrong in this crate or in a backend behind it.
#[derive(Debug, Clone, PartialEq, Eq)]
pub enum CrucibleError {
    /// A backend could not complete an operation.
    IoError(String),
    /// A limit of the machine was hit.
    GenericError(String),
    /// The backend has not been activated.
    UpstairsInactive,
    /// The backend was asked to activate while already active.
    UpstairsAlreadyActive,
    /// The request reaches past the end of the device.
    OffsetInvalid,
    /// The length of the request is not a whole number of blocks, one at
    /// least.
    DataLenUnaligned,
    /// A backend's block size differs from that of the volume it joins.
    BlockSizeMismatch,
    /// A sub-volume's backend reports a size other than that of its range.
    SubvolumeSizeMismatch,
    /// A write reached a volume that has no sub-volume to take it.
    CannotReceiveBlocks(String),
    /// A read reached a volume that has neither sub-volume nor parent.
    CannotServeBlocks(String),
}

} // verus!
