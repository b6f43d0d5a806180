//! Captures that record both the signal-off and the signal-on durations.
use crate::timing::{split_at_gaps, split_gaps, views};
use vstd::prelude::*;

verus! {

/// One pair of consecutive intervals; the second is absent at the end of a frame.
#[derive(Debug, Clone, Copy, PartialEq, Eq, Structural)]
pub struct EntryTimesBoth {
    pub first_len: u16,
    pub second_len: Option<u16>,
}

/// The paired intervals of one frame, measured in ticks of length `TICK_LEN`.
#[derive(Debug, PartialEq, Eq)]
pub struct SetTimesBoth<const TICK_LEN: u16> {
    entries: Vec<EntryTimesBoth>,
}

/// Consecutive intervals taken two by two; an odd last one stands alone.
pub open spec fn pair_up(seg: Seq<u16>) -> Seq<EntryTimesBoth> {
    Seq::new(
        ((seg.len() + 1) / 2) as nat,
        |i: int|
            (EntryTimesBoth {
                first_len: seg[2 * i],
                second_len: if 2 * i + 1 < seg.len() {
                    Some(seg[2 * i + 1])
                } else {
                    None
                },
            }),
    )
}

/// The pieces that hold at least one interval.
pub open spec fn drop_empty(segs: Seq<Seq<u16>>) -> Seq<Seq<u16>>
    decreases segs.len(),
{
    if segs.len() == 0 {
        segs
    } else if segs.last().len() == 0 {
        drop_empty(segs.drop_last())
    } else {
        drop_empty(segs.drop_last()).push(segs.last())
    }
}

/// The frames of a capture, before pairing: the non-empty pieces between idle gaps.
pub open spec fn both_frames(buf: Seq<u16>, tick: int) -> Seq<Seq<u16>> {
    drop_empty(split_gaps(buf, 19 * tick))
}

fn pair_segment(seg: &Vec<u16>) -> (r: Vec<EntryTimesBoth>)
    ensures
        r@ == pair_up(seg@),
{
    let n = seg.len();
    let mut r: Vec<EntryTimesBoth> = Vec::new();
    let mut i: usize = 0;
    while i < n
        invariant
            n == seg@.len(),
            i <= n,
            i % 2 == 0 || i == n,
            r@ == pair_up(seg@).take((i as int + 1) / 2),
        decreases n - i,
    {
        if i + 1 < n {
            let e = EntryTimesBoth { first_len: seg[i], second_len: Some(seg[i + 1]) };
            r.push(e);
            assert(r@ =~= pair_up(seg@).take((i as int + 1) / 2 + 1));
            i += 2;
        } else {
            let e = EntryTimesBoth { first_len: seg[i], second_len: None };
            r.push(e);
            assert(r@ =~= pair_up(seg@).take((i as int + 1) / 2 + 1));
            i += 1;
        }
    }
    assert(r@ =~= pair_up(seg@));
    r
}

impl<const TICK_LEN: u16> SetTimesBoth<TICK_LEN> {
    pub closed spec fn view(&self) -> Seq<EntryTimesBoth> {
        self.entries@
    }

    /// A frame made of the given pairs.
    pub fn from_entries(entries: Vec<EntryTimesBoth>) -> (r: Self)
        ensures
            r@ == entries@,
    {
        SetTimesBoth { entries }
    }

    /// The pairs of the frame, in order.
    pub fn entries(&self) -> (r: &[EntryTimesBoth])
        ensures
            r@ == self@,
    {
        self.entries.as_slice()
    }

    /// Splits a capture at the intervals longer than 19 tick lengths, keeps the
    /// pieces that are not empty, and pairs the intervals of each.
    pub fn from_raw(buf: &[u16]) -> (r: Vec<Self>)
        ensures
            r@.len() == both_frames(buf@, TICK_LEN as int).len(),
            forall|i: int|
                0 <= i < r@.len() ==> (#[trigger] r@[i])@ == pair_up(
                    both_frames(buf@, TICK_LEN as int)[i],
                ),
    {
        let segs = split_at_gaps(buf, 19 * (TICK_LEN as u32));
        let ghost all = split_gaps(buf@, 19 * TICK_LEN as int);
        let mut out: Vec<Self> = Vec::new();
        let mut i: usize = 0;
        while i < segs.len()
            invariant
                i <= segs@.len(),
                views(segs@) == all,
                out@.len() == drop_empty(all.take(i as int)).len(),
                forall|k: int|
                    0 <= k < out@.len() ==> (#[trigger] out@[k])@ == pair_up(
                        drop_empty(all.take(i as int))[k],
                    ),
            decreases segs@.len() - i,
        {
            let ghost pre = all.take(i as int);
            assert(all.take(i + 1).drop_last() == pre);
            assert(segs@[i as int]@ == all[i as int]);
            if segs[i].len() > 0 {
                let entries = pair_segment(&segs[i]);
                out.push(SetTimesBoth { entries });
            }
            i += 1;
        }
        assert(all.take(segs@.len() as int) == all);
        out
    }
}

} // verus!
