use vstd::prelude::*;

verus! {

/// Why a store operation failed.
///
/// An empty result is never an error: a round with no certificates yields an
/// empty sequence, and a single unsaved id yields an absent value.
#[derive(Clone, Copy, Debug, PartialEq, Eq, Structural)]
pub enum ForensicError {
    /// The underlying log could not be opened, read or written.
    StorageIo,
    /// Stored bytes do not decode as the record they should hold.
    DecodeError,
    /// The round index names an id for which the log has no certificate or no
    /// nil-flag record: the index has diverged from the log.
    IndexInconsistency,
}

} // verus!
