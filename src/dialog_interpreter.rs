//! Recognition of the requests that open a dialog between a reader (Miller-coded
//! requests) and a card (Manchester-coded replies).
use crate::frame::{Frame, FrameAttributed};
use vstd::prelude::*;

verus! {

/// The value of the short frame ALL_REQ (WUPA).
pub const ALL_REQ_CODE: u8 = 0x52;

/// The value of the short frame SENS_REQ (REQA).
pub const SENS_REQ_CODE: u8 = 0x26;

/// ALL_REQ: the short Miller frame `0x52`.
pub fn all_req() -> (r: FrameAttributed)
    ensures
        r == FrameAttributed::Miller(Frame::Short(ALL_REQ_CODE)),
{
    FrameAttributed::Miller(Frame::Short(ALL_REQ_CODE))
}

/// SENS_REQ: the short Miller frame `0x26`.
pub fn sens_req() -> (r: FrameAttributed)
    ensures
        r == FrameAttributed::Miller(Frame::Short(SENS_REQ_CODE)),
{
    FrameAttributed::Miller(Frame::Short(SENS_REQ_CODE))
}

/// The bytes of SPL_REQ, the anti-collision select request.
pub fn spl_req() -> (r: Vec<u8>)
    ensures
        r@ == seq![0x50u8, 0x00u8],
{
    let mut r: Vec<u8> = Vec::new();
    r.push(0x50);
    r.push(0x00);
    assert(r@ =~= seq![0x50u8, 0x00u8]);
    r
}

} // verus!
