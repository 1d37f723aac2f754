use vstd::prelude::*;

verus! {

/// Why a reading failed.
#[derive(Debug, PartialEq, Eq, Structural)]
pub enum DhtError<E> {
    /// Reading or driving the line failed; the cause is kept as it came.
    PinError(E),
    /// A whole frame arrived, but its checksum does not match its data.
    ChecksumMismatch,
    /// A bounded wait never saw the line change as expected.
    Timeout,
}

impl<E> From<E> for DhtError<E> {
    fn from(error: E) -> (r: DhtError<E>)
        ensures
            r == DhtError::PinError(error),
    {
        DhtError::PinError(error)
    }
}

impl<E> vstd::std_specs::convert::FromSpecImpl<E> for DhtError<E> {
    open spec fn obeys_from_spec() -> bool {
        true
    }

    open spec fn from_spec(error: E) -> DhtError<E> {
        DhtError::PinError(error)
    }
}

} // verus!
