//! What a failed decode reports: the kind of failure and the offset in the
//! buffer at which it was found.

use vstd::prelude::*;

verus! {

/// The ways in which decoding can fail.
#[derive(Clone, Copy, Debug, PartialEq, Eq, Structural)]
pub enum ErrorKind {
    /// The buffer does not begin with the class-file signature.
    BadMagicNumber,
    /// A fixed-width read would run past the end of the buffer.
    OutOfBounds,
    /// The byte in front of a constant-pool entry names no entry kind.
    UnknownConstantTag,
    /// The bytes of a text entry are not well-formed UTF-8.
    InvalidEncoding,
    /// The buffer ends before the declared number of pool entries.
    TruncatedPool,
    /// The buffer ends before the declared number of list records.
    TruncatedList,
}

/// A failed decode: what went wrong, and the offset of the read that found it.
#[derive(Clone, Copy, Debug, PartialEq, Eq, Structural)]
pub struct DecodeError {
    pub kind: ErrorKind,
    pub offset: usize,
}

/// The mathematical form of a failure: its kind and the offset as an integer.
pub struct Failure {
    pub kind: ErrorKind,
    pub offset: int,
}

impl View for DecodeError {
    type V = Failure;

    open spec fn view(&self) -> Failure {
        Failure { kind: self.kind, offset: self.offset as int }
    }
}

/// What a decoder specifies for a buffer and an offset: the value with the
/// offset behind it, or the failure.
pub type Outcome<T> = Result<(T, int), Failure>;

/// The failure of kind `kind` at `offset`.
pub open spec fn fail<T>(kind: ErrorKind, offset: int) -> Outcome<T> {
    Err(Failure { kind, offset })
}

/// Whether the executable result `r` is the outcome `o`: the same value and
/// next offset, or the same failure.
pub open spec fn yields<T>(r: Result<(T, usize), DecodeError>, o: Outcome<T>) -> bool {
    match r {
        Ok((v, next)) => o == Ok::<(T, int), Failure>((v, next as int)),
        Err(e) => o == Err::<(T, int), Failure>(e@),
    }
}

/// Whether the executable result `r` is the outcome `o`: a value whose view
/// is the outcome's, with the same next offset, or the same failure.
pub open spec fn yields_view<T: View>(
    r: Result<(T, usize), DecodeError>,
    o: Outcome<T::V>,
) -> bool {
    match r {
        Ok((v, next)) => o == Ok::<(T::V, int), Failure>((v@, next as int)),
        Err(e) => o == Err::<(T::V, int), Failure>(e@),
    }
}

} // verus!
