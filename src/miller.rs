//! Miller-coded requests (reader to card): timing classification and bit collection.
use crate::bits::{bit_count, has_room, max_bits, Bits, CollectorView};
use crate::error::MillerError;
use crate::frame::{decode_bits, CompleteCollector, Frame, FrameView};
use crate::time_record_both_ways::{EntryTimesBoth, SetTimesBoth};
use crate::timing::{in_window, split_at_gaps, split_gaps, views, window};
use vstd::prelude::*;

verus! {

/// The symbols of the Miller code.
#[derive(Debug, Clone, Copy, PartialEq, Eq, Structural)]
pub enum MillerElement {
    X,
    Y,
    Z,
}

/// Gathers the bits of a Miller symbol stream.
#[derive(Debug, PartialEq, Eq)]
pub enum MillerCollector {
    Empty,
    InProgress(Bits),
    Complete(CompleteCollector),
}

impl MillerCollector {
    pub open spec fn view(&self) -> CollectorView {
        match self {
            MillerCollector::Empty => CollectorView::Empty,
            MillerCollector::InProgress(b) => CollectorView::InProgress(b@),
            MillerCollector::Complete(c) => CollectorView::Complete(c.data@),
        }
    }
}

/// One symbol read while bits are being gathered: the new bits, and whether the
/// frame is now finished. `X` reads `1`; `Z` reads `0` and cannot follow a `1`;
/// `Y` after a `1` reads `0`, and after a `0` ends the frame, dropping that `0`.
pub open spec fn miller_bits_step(b: Seq<bool>, e: MillerElement) -> Result<
    (Seq<bool>, bool),
    MillerError,
> {
    match e {
        MillerElement::X => Ok((b.push(true), false)),
        MillerElement::Y => if b.len() == 0 {
            Err(MillerError::WrongMillerSequence)
        } else if !b.last() {
            Ok((b.drop_last(), true))
        } else {
            Ok((b.push(false), false))
        },
        MillerElement::Z => if b.len() > 0 && b.last() {
            Err(MillerError::WrongMillerSequence)
        } else {
            Ok((b.push(false), false))
        },
    }
}

/// One symbol fed to a collector; the stream opens with `Z`.
pub open spec fn miller_step(s: CollectorView, e: MillerElement) -> Result<CollectorView, MillerError> {
    match s {
        CollectorView::Empty => if e == MillerElement::Z {
            Ok(CollectorView::InProgress(Seq::empty()))
        } else {
            Err(MillerError::WrongMillerSequence)
        },
        CollectorView::InProgress(b) => match miller_bits_step(b, e) {
            Ok((nb, done)) => if done {
                Ok(CollectorView::Complete(nb))
            } else {
                Ok(CollectorView::InProgress(nb))
            },
            Err(x) => Err(x),
        },
        CollectorView::Complete(_) => Err(MillerError::WrongMillerSequence),
    }
}

/// A whole symbol sequence fed to an empty collector.
pub open spec fn miller_run(es: Seq<MillerElement>) -> Result<CollectorView, MillerError>
    decreases es.len(),
{
    if es.len() == 0 {
        Ok(CollectorView::Empty)
    } else {
        match miller_run(es.drop_last()) {
            Ok(s) => miller_step(s, es.last()),
            Err(e) => Err(e),
        }
    }
}

/// The frame a symbol sequence decodes to.
pub open spec fn miller_frame(es: Seq<MillerElement>) -> Result<FrameView, MillerError> {
    match miller_run(es) {
        Err(e) => Err(e),
        Ok(CollectorView::Complete(b)) => match decode_bits(b) {
            Ok(v) => Ok(v),
            Err(e) => Err(MillerError::Frame(e)),
        },
        Ok(_) => Err(MillerError::IncompleteFrame),
    }
}

proof fn lemma_run_len(es: Seq<MillerElement>)
    ensures
        miller_run(es) is Ok ==> bit_count(miller_run(es)->Ok_0) <= es.len(),
    decreases es.len(),
{
    if es.len() > 0 {
        lemma_run_len(es.drop_last());
    }
}

proof fn lemma_run_err(es: Seq<MillerElement>, i: int)
    requires
        0 <= i <= es.len(),
        miller_run(es.take(i)) is Err,
    ensures
        miller_run(es) == miller_run(es.take(i)),
    decreases es.len() - i,
{
    if i < es.len() {
        assert(es.take(i + 1).drop_last() == es.take(i));
        lemma_run_err(es, i + 1);
    } else {
        assert(es.take(i) == es);
    }
}

impl MillerCollector {
    /// Feeds one symbol; on an error the collector is left as it was.
    pub fn add_element(&mut self, element: &MillerElement) -> (r: Result<(), MillerError>)
        requires
            has_room(old(self)@),
        ensures
            match miller_step(old(self)@, *element) {
                Ok(s) => r is Ok && final(self)@ == s,
                Err(e) => r == Err::<(), MillerError>(e) && final(self)@ == old(self)@,
            },
    {
        match self {
            MillerCollector::Empty => {
                if let MillerElement::Z = element {
                    *self = MillerCollector::InProgress(Bits::empty());
                } else {
                    return Err(MillerError::WrongMillerSequence);
                }
            },
            MillerCollector::InProgress(set) => {
                let n = set.len();
                let last_bit = if n == 0 {
                    None
                } else {
                    Some(set.get(n - 1))
                };
                match element {
                    MillerElement::X => set.push(true),
                    MillerElement::Y => match last_bit {
                        None => return Err(MillerError::WrongMillerSequence),
                        Some(false) => {
                            let mut data = set.copy();
                            data.pop();
                            *self = MillerCollector::Complete(CompleteCollector { data });
                        },
                        Some(true) => set.push(false),
                    },
                    MillerElement::Z => {
                        if let Some(true) = last_bit {
                            return Err(MillerError::WrongMillerSequence);
                        } else {
                            set.push(false);
                        }
                    },
                }
            },
            MillerCollector::Complete(_) => return Err(MillerError::WrongMillerSequence),
        }
        Ok(())
    }
}

/// The symbols one time-down interval adds after the context symbol `ctx` (`X`, or
/// `Z`, which the stream starts with).
pub open spec fn down_symbols(ctx: MillerElement, v: u32, tick: int) -> Result<
    Seq<MillerElement>,
    MillerError,
> {
    if ctx == MillerElement::X {
        if in_window(v as int, 7, 9, tick) {
            Ok(seq![MillerElement::X])
        } else if in_window(v as int, 11, 13, tick) {
            Ok(seq![MillerElement::Y, MillerElement::Z])
        } else if in_window(v as int, 15, 17, tick) {
            Ok(seq![MillerElement::Y, MillerElement::X])
        } else {
            Err(MillerError::UnexpectedInterval(clamp_u16(v)))
        }
    } else {
        if in_window(v as int, 7, 9, tick) {
            Ok(seq![MillerElement::Z])
        } else if in_window(v as int, 11, 13, tick) {
            Ok(seq![MillerElement::X])
        } else if in_window(v as int, 15, 17, tick) {
            Ok(seq![MillerElement::Y, MillerElement::Z])
        } else {
            Err(MillerError::UnexpectedInterval(clamp_u16(v)))
        }
    }
}

/// The symbols a time-down interval adds to the sequence `es`.
pub open spec fn miller_down_interval(es: Seq<MillerElement>, v: u16, tick: int) -> Result<
    Seq<MillerElement>,
    MillerError,
> {
    if es.len() == 0 {
        match down_symbols(MillerElement::Z, v as u32, tick) {
            Ok(s) => Ok(seq![MillerElement::Z] + s),
            Err(e) => Err(e),
        }
    } else if es.last() == MillerElement::Y {
        Err(MillerError::WrongMillerSequence)
    } else {
        down_symbols(es.last(), v as u32, tick)
    }
}

/// The symbols of a frame of time-down intervals.
pub open spec fn miller_down_elements(vs: Seq<u16>, tick: int) -> Result<
    Seq<MillerElement>,
    MillerError,
>
    decreases vs.len(),
{
    if vs.len() == 0 {
        Ok(Seq::empty())
    } else {
        match miller_down_elements(vs.drop_last(), tick) {
            Ok(es) => match miller_down_interval(es, vs.last(), tick) {
                Ok(added) => Ok(es + added),
                Err(e) => Err(e),
            },
            Err(e) => Err(e),
        }
    }
}

/// An interval as an error reports it: held at `u16::MAX` when it does not fit.
pub open spec fn clamp_u16(v: u32) -> u16 {
    if v > 65535 {
        65535
    } else {
        v as u16
    }
}

/// The symbols a pair (signal off, then signal on) adds to the sequence `es`. The
/// off interval must last 3 to 5 tick lengths; their sum is read as a time-down
/// interval; a pair without its second interval ends the frame with `Y`.
pub open spec fn miller_both_interval(es: Seq<MillerElement>, t: EntryTimesBoth, tick: int) -> Result<
    Seq<MillerElement>,
    MillerError,
> {
    if !in_window(t.first_len as int, 3, 5, tick) {
        Err(MillerError::UnexpectedMillerOffInterval(t.first_len))
    } else if es.len() > 0 && es.last() == MillerElement::Y {
        Err(MillerError::WrongMillerSequence)
    } else {
        let lead = if es.len() == 0 {
            seq![MillerElement::Z]
        } else {
            Seq::empty()
        };
        let ctx = if es.len() == 0 {
            MillerElement::Z
        } else {
            es.last()
        };
        match t.second_len {
            None => Ok(lead.push(MillerElement::Y)),
            Some(v) => match down_symbols(ctx, (t.first_len as int + v as int) as u32, tick) {
                Ok(s) => Ok(lead + s),
                Err(e) => Err(e),
            },
        }
    }
}

/// The symbols of a frame of paired intervals.
pub open spec fn miller_both_elements(ts: Seq<EntryTimesBoth>, tick: int) -> Result<
    Seq<MillerElement>,
    MillerError,
>
    decreases ts.len(),
{
    if ts.len() == 0 {
        Ok(Seq::empty())
    } else {
        match miller_both_elements(ts.drop_last(), tick) {
            Ok(es) => match miller_both_interval(es, ts.last(), tick) {
                Ok(added) => Ok(es + added),
                Err(e) => Err(e),
            },
            Err(e) => Err(e),
        }
    }
}

/// The time-down intervals of one frame, measured in ticks of length `TICK_LEN`.
#[derive(Debug, PartialEq, Eq)]
pub struct MillerTimesDown<const TICK_LEN: u16> {
    time_down_set: Vec<u16>,
}

/// The symbols of a Miller request, in the order they were classified.
#[derive(Debug, PartialEq, Eq)]
pub struct MillerElementSet {
    element_set: Vec<MillerElement>,
}

fn copy_intervals(v: &Vec<u16>) -> (r: Vec<u16>)
    ensures
        r@ == v@,
{
    let mut r: Vec<u16> = Vec::new();
    let mut i: usize = 0;
    while i < v.len()
        invariant
            i <= v@.len(),
            r@ == v@.take(i as int),
        decreases v@.len() - i,
    {
        r.push(v[i]);
        assert(r@ == v@.take(i + 1));
        i += 1;
    }
    assert(v@.take(v@.len() as int) == v@);
    r
}

impl<const TICK_LEN: u16> MillerTimesDown<TICK_LEN> {
    pub closed spec fn view(&self) -> Seq<u16> {
        self.time_down_set@
    }

    /// A frame made of the given intervals.
    pub fn from_intervals(time_down_set: Vec<u16>) -> (r: Self)
        ensures
            r@ == time_down_set@,
    {
        MillerTimesDown { time_down_set }
    }

    /// The intervals of the frame, in order.
    pub fn intervals(&self) -> (r: &[u16])
        ensures
            r@ == self@,
    {
        self.time_down_set.as_slice()
    }

    /// Splits a capture at every interval longer than 19 tick lengths; empty pieces
    /// are kept, as slice splitting gives them.
    pub fn from_raw(time_down_input: &[u16]) -> (r: Vec<Self>)
        ensures
            r@.len() == split_gaps(time_down_input@, 19 * TICK_LEN as int).len(),
            forall|i: int|
                0 <= i < r@.len() ==> (#[trigger] r@[i])@ == split_gaps(
                    time_down_input@,
                    19 * TICK_LEN as int,
                )[i],
    {
        let segs = split_at_gaps(time_down_input, 19 * (TICK_LEN as u32));
        let ghost all = split_gaps(time_down_input@, 19 * TICK_LEN as int);
        let mut out: Vec<Self> = Vec::new();
        let mut i: usize = 0;
        while i < segs.len()
            invariant
                i <= segs@.len(),
                views(segs@) == all,
                out@.len() == i,
                forall|k: int| 0 <= k < i ==> (#[trigger] out@[k])@ == all[k],
            decreases segs@.len() - i,
        {
            assert(segs@[i as int]@ == all[i as int]);
            let time_down_set = copy_intervals(&segs[i]);
            out.push(MillerTimesDown { time_down_set });
            i += 1;
        }
        out
    }

    /// Classifies the intervals into Miller symbols.
    pub fn convert(&self) -> (r: Result<MillerElementSet, MillerError>)
        ensures
            match miller_down_elements(self@, TICK_LEN as int) {
                Ok(es) => r is Ok && r->Ok_0@ == es,
                Err(e) => r == Err::<MillerElementSet, MillerError>(e),
            },
    {
        let vs = self.intervals();
        let ghost s = self@;
        let mut set = MillerElementSet::new();
        let mut i: usize = 0;
        while i < vs.len()
            invariant
                vs@ == s,
                s == self@,
                i <= s.len(),
                miller_down_elements(s.take(i as int), TICK_LEN as int) == Ok::<
                    Seq<MillerElement>,
                    MillerError,
                >(set@),
            decreases s.len() - i,
        {
            assert(s.take(i + 1).drop_last() == s.take(i as int));
            assert(s.take(i + 1).last() == s[i as int]);
            let res = set.add_time_down_interval::<TICK_LEN>(vs[i]);
            if let Err(e) = res {
                proof {
                    assert(miller_down_elements(s.take(i + 1), TICK_LEN as int) == Err::<
                        Seq<MillerElement>,
                        MillerError,
                    >(e));
                    lemma_down_err(s, TICK_LEN as int, i + 1);
                }
                return Err(e);
            }
            i += 1;
        }
        assert(s.take(s.len() as int) == s);
        Ok(set)
    }
}

pub(crate) proof fn lemma_down_err(vs: Seq<u16>, tick: int, i: int)
    requires
        0 <= i <= vs.len(),
        miller_down_elements(vs.take(i), tick) is Err,
    ensures
        miller_down_elements(vs, tick) == miller_down_elements(vs.take(i), tick),
    decreases vs.len() - i,
{
    if i < vs.len() {
        assert(vs.take(i + 1).drop_last() == vs.take(i));
        lemma_down_err(vs, tick, i + 1);
    } else {
        assert(vs.take(i) == vs);
    }
}

proof fn lemma_both_err(ts: Seq<EntryTimesBoth>, tick: int, i: int)
    requires
        0 <= i <= ts.len(),
        miller_both_elements(ts.take(i), tick) is Err,
    ensures
        miller_both_elements(ts, tick) == miller_both_elements(ts.take(i), tick),
    decreases ts.len() - i,
{
    if i < ts.len() {
        assert(ts.take(i + 1).drop_last() == ts.take(i));
        lemma_both_err(ts, tick, i + 1);
    } else {
        assert(ts.take(i) == ts);
    }
}

impl MillerElementSet {
    pub closed spec fn view(&self) -> Seq<MillerElement> {
        self.element_set@
    }

    /// An empty symbol sequence.
    pub fn new() -> (r: Self)
        ensures
            r@ == Seq::<MillerElement>::empty(),
    {
        Self { element_set: Vec::new() }
    }

    /// The symbols, in order.
    pub fn elements(&self) -> (r: &[MillerElement])
        ensures
            r@ == self@,
    {
        self.element_set.as_slice()
    }

    /// The symbols an interval adds after an `X`.
    pub(crate) fn process_previous_x<const TICK_LEN: u16>(interval: u32) -> (r: Result<
        Vec<MillerElement>,
        MillerError,
    >)
        ensures
            match down_symbols(MillerElement::X, interval, TICK_LEN as int) {
                Ok(s) => r is Ok && r->Ok_0@ == s,
                Err(e) => r == Err::<Vec<MillerElement>, MillerError>(e),
            },
    {
        let v = interval;
        let mut out: Vec<MillerElement> = Vec::new();
        if window(v, 7, 9, TICK_LEN) {
            out.push(MillerElement::X);
        } else if window(v, 11, 13, TICK_LEN) {
            out.push(MillerElement::Y);
            out.push(MillerElement::Z);
        } else if window(v, 15, 17, TICK_LEN) {
            out.push(MillerElement::Y);
            out.push(MillerElement::X);
        } else {
            let reported: u16 = if interval > 65535 {
                65535
            } else {
                interval as u16
            };
            return Err(MillerError::UnexpectedInterval(reported));
        }
        assert(out@ =~= down_symbols(MillerElement::X, interval, TICK_LEN as int)->Ok_0);
        Ok(out)
    }

    /// The symbols an interval adds after a `Z`. A long interval gives `Y, Z`, which
    /// the collector rejects later.
    pub(crate) fn process_previous_z<const TICK_LEN: u16>(interval: u32) -> (r: Result<
        Vec<MillerElement>,
        MillerError,
    >)
        ensures
            match down_symbols(MillerElement::Z, interval, TICK_LEN as int) {
                Ok(s) => r is Ok && r->Ok_0@ == s,
                Err(e) => r == Err::<Vec<MillerElement>, MillerError>(e),
            },
    {
        let v = interval;
        let mut out: Vec<MillerElement> = Vec::new();
        if window(v, 7, 9, TICK_LEN) {
            out.push(MillerElement::Z);
        } else if window(v, 11, 13, TICK_LEN) {
            out.push(MillerElement::X);
        } else if window(v, 15, 17, TICK_LEN) {
            out.push(MillerElement::Y);
            out.push(MillerElement::Z);
        } else {
            let reported: u16 = if interval > 65535 {
                65535
            } else {
                interval as u16
            };
            return Err(MillerError::UnexpectedInterval(reported));
        }
        assert(out@ =~= down_symbols(MillerElement::Z, interval, TICK_LEN as int)->Ok_0);
        Ok(out)
    }

    /// The symbols a time-down interval adds after the sequence `es`.
    pub(crate) fn down_interval_symbols<const TICK_LEN: u16>(
        es: &Vec<MillerElement>,
        interval: u16,
    ) -> (r: Result<Vec<MillerElement>, MillerError>)
        ensures
            match miller_down_interval(es@, interval, TICK_LEN as int) {
                Ok(s) => r is Ok && r->Ok_0@ == s,
                Err(e) => r == Err::<Vec<MillerElement>, MillerError>(e),
            },
    {
        let n = es.len();
        if n == 0 {
            let mut rest = Self::process_previous_z::<TICK_LEN>(interval as u32)?;
            let mut lead: Vec<MillerElement> = Vec::new();
            lead.push(MillerElement::Z);
            lead.append(&mut rest);
            Ok(lead)
        } else {
            match es[n - 1] {
                MillerElement::X => Self::process_previous_x::<TICK_LEN>(interval as u32),
                MillerElement::Y => Err(MillerError::WrongMillerSequence),
                MillerElement::Z => Self::process_previous_z::<TICK_LEN>(interval as u32),
            }
        }
    }

    /// Classifies one time-down interval and appends its symbols; on an error the
    /// sequence is left as it was.
    fn add_time_down_interval<const TICK_LEN: u16>(&mut self, interval: u16) -> (r: Result<
        (),
        MillerError,
    >)
        ensures
            match miller_down_interval(old(self)@, interval, TICK_LEN as int) {
                Ok(s) => r is Ok && final(self)@ == old(self)@ + s,
                Err(e) => r == Err::<(), MillerError>(e) && final(self)@ == old(self)@,
            },
    {
        let mut added = Self::down_interval_symbols::<TICK_LEN>(&self.element_set, interval)?;
        self.element_set.append(&mut added);
        Ok(())
    }

    /// Classifies one pair of intervals and appends its symbols; on an error the
    /// sequence is left as it was.
    pub(crate) fn add_time_both_interval<const TICK_LEN: u16>(
        &mut self,
        time_both: EntryTimesBoth,
    ) -> (r: Result<(), MillerError>)
        ensures
            match miller_both_interval(old(self)@, time_both, TICK_LEN as int) {
                Ok(s) => r is Ok && final(self)@ == old(self)@ + s,
                Err(e) => r == Err::<(), MillerError>(e) && final(self)@ == old(self)@,
            },
    {
        let first = time_both.first_len;
        if !window(first as u32, 3, 5, TICK_LEN) {
            return Err(MillerError::UnexpectedMillerOffInterval(first));
        }
        let n = self.element_set.len();
        let mut added: Vec<MillerElement> = Vec::new();
        let ctx = if n == 0 {
            added.push(MillerElement::Z);
            MillerElement::Z
        } else {
            self.element_set[n - 1]
        };
        if let MillerElement::Y = ctx {
            return Err(MillerError::WrongMillerSequence);
        }
        match time_both.second_len {
            None => added.push(MillerElement::Y),
            Some(second_len) => {
                let interval = first as u32 + second_len as u32;
                let mut more = match ctx {
                    MillerElement::X => Self::process_previous_x::<TICK_LEN>(interval)?,
                    _ => Self::process_previous_z::<TICK_LEN>(interval)?,
                };
                added.append(&mut more);
            },
        }
        self.element_set.append(&mut added);
        Ok(())
    }

    /// Classifies the intervals of a time-down frame.
    pub fn from_times_down<const TICK_LEN: u16>(times_down: MillerTimesDown<TICK_LEN>) -> (r:
        Result<Self, MillerError>)
        ensures
            match miller_down_elements(times_down@, TICK_LEN as int) {
                Ok(es) => r is Ok && r->Ok_0@ == es,
                Err(e) => r == Err::<Self, MillerError>(e),
            },
    {
        times_down.convert()
    }

    /// Classifies the pairs of a frame of paired intervals.
    pub fn from_times_both<const TICK_LEN: u16>(times_both: SetTimesBoth<TICK_LEN>) -> (r: Result<
        Self,
        MillerError,
    >)
        ensures
            match miller_both_elements(times_both@, TICK_LEN as int) {
                Ok(es) => r is Ok && r->Ok_0@ == es,
                Err(e) => r == Err::<Self, MillerError>(e),
            },
    {
        times_both.convert_to_miller()
    }

    /// Feeds the symbols to a collector and reads the finished bits as a frame.
    pub fn collect_frame(&self) -> (r: Result<Frame, MillerError>)
        requires
            self@.len() < max_bits(),
        ensures
            match r {
                Ok(f) => miller_frame(self@) == Ok::<FrameView, MillerError>(f@),
                Err(e) => miller_frame(self@) == Err::<FrameView, MillerError>(e),
            },
    {
        let ghost es = self@;
        let mut collector = MillerCollector::Empty;
        let mut i: usize = 0;
        while i < self.element_set.len()
            invariant
                es == self@,
                es.len() < max_bits(),
                i <= es.len(),
                miller_run(es.take(i as int)) == Ok::<CollectorView, MillerError>(collector@),
            decreases es.len() - i,
        {
            proof {
                lemma_run_len(es.take(i as int));
                assert(es.take(i + 1).drop_last() == es.take(i as int));
            }
            let res = collector.add_element(&self.element_set[i]);
            if let Err(e) = res {
                proof {
                    lemma_run_err(es, i + 1);
                }
                return Err(e);
            }
            i += 1;
        }
        assert(es.take(es.len() as int) == es);
        if let MillerCollector::Complete(complete_collector) = collector {
            match complete_collector.to_frame() {
                Ok(f) => Ok(f),
                Err(e) => Err(MillerError::Frame(e)),
            }
        } else {
            Err(MillerError::IncompleteFrame)
        }
    }
}

impl<const TICK_LEN: u16> SetTimesBoth<TICK_LEN> {
    /// Classifies the pairs of this frame as Miller symbols.
    pub fn convert_to_miller(&self) -> (r: Result<MillerElementSet, MillerError>)
        ensures
            match miller_both_elements(self@, TICK_LEN as int) {
                Ok(es) => r is Ok && r->Ok_0@ == es,
                Err(e) => r == Err::<MillerElementSet, MillerError>(e),
            },
    {
        let entries = self.entries();
        let ghost ts = self@;
        let mut set = MillerElementSet::new();
        let mut i: usize = 0;
        while i < entries.len()
            invariant
                entries@ == ts,
                ts == self@,
                i <= ts.len(),
                miller_both_elements(ts.take(i as int), TICK_LEN as int) == Ok::<
                    Seq<MillerElement>,
                    MillerError,
                >(set@),
            decreases ts.len() - i,
        {
            assert(ts.take(i + 1).drop_last() == ts.take(i as int));
            assert(ts.take(i + 1).last() == ts[i as int]);
            let res = set.add_time_both_interval::<TICK_LEN>(entries[i]);
            if let Err(e) = res {
                proof {
                    assert(miller_both_elements(ts.take(i + 1), TICK_LEN as int) == Err::<
                        Seq<MillerElement>,
                        MillerError,
                    >(e));
                    lemma_both_err(ts, TICK_LEN as int, i + 1);
                }
                return Err(e);
            }
            i += 1;
        }
        assert(ts.take(ts.len() as int) == ts);
        Ok(set)
    }
}

impl Default for MillerElementSet {
    fn default() -> (r: Self)
        ensures
            r@ == Seq::<MillerElement>::empty(),
    {
        Self::new()
    }
}

} // verus!
