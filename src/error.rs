//! The error kinds of each decoding layer.
use vstd::prelude::*;

verus! {

/// Why a finished bit sequence is not a frame.
#[derive(Debug, Clone, Copy, PartialEq, Eq, Structural)]
pub enum FrameError {
    /// Not produced when reading a frame: bytes whose CRC does not match are kept
    /// as a clean-cut fragment.
    CrcMismatch,
    EmptyFrame,
    ParityBit,
}

/// Why a Manchester-coded reply could not be decoded.
#[derive(Debug, Clone, Copy, PartialEq, Eq, Structural)]
pub enum ManchesterError {
    FirstNotD,
    Frame(FrameError),
    IncompleteFrame,
    NoAddingToComplete,
    UnexpectedOddInterval(u16),
    UnexpectedEvenInterval(u16),
}

/// Why a Miller-coded request could not be decoded.
#[derive(Debug, Clone, Copy, PartialEq, Eq, Structural)]
pub enum MillerError {
    Frame(FrameError),
    IncompleteFrame,
    UnexpectedInterval(u16),
    UnexpectedMillerOffInterval(u16),
    WrongMillerSequence,
}

} // verus!
