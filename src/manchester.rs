//! Manchester-coded replies (card to reader): timing classification and bit collection.
use crate::bits::{bit_count, has_room, max_bits, Bits, CollectorView};
use crate::error::ManchesterError;
use crate::frame::{decode_bits, CompleteCollector, Frame, FrameView};
use crate::time_record_both_ways::{EntryTimesBoth, SetTimesBoth};
use crate::timing::{in_window, window};
use vstd::prelude::*;

verus! {

/// The symbols of the Manchester code.
#[derive(Debug, Clone, Copy, PartialEq, Eq, Structural)]
pub enum ManchesterElement {
    D,
    E,
    F,
}

/// Gathers the bits of a Manchester symbol stream.
#[derive(Debug, PartialEq, Eq)]
pub enum ManchesterCollector {
    Empty,
    InProgress(Bits),
    Complete(CompleteCollector),
}

impl ManchesterCollector {
    pub open spec fn view(&self) -> CollectorView {
        match self {
            ManchesterCollector::Empty => CollectorView::Empty,
            ManchesterCollector::InProgress(b) => CollectorView::InProgress(b@),
            ManchesterCollector::Complete(c) => CollectorView::Complete(c.data@),
        }
    }
}

/// One symbol fed to a collector: `D` opens the stream and then reads `1`, `E` reads
/// `0`, `F` closes it.
pub open spec fn manchester_step(s: CollectorView, e: ManchesterElement) -> Result<
    CollectorView,
    ManchesterError,
> {
    match s {
        CollectorView::Empty => if e == ManchesterElement::D {
            Ok(CollectorView::InProgress(Seq::empty()))
        } else {
            Err(ManchesterError::FirstNotD)
        },
        CollectorView::InProgress(b) => match e {
            ManchesterElement::D => Ok(CollectorView::InProgress(b.push(true))),
            ManchesterElement::E => Ok(CollectorView::InProgress(b.push(false))),
            ManchesterElement::F => Ok(CollectorView::Complete(b)),
        },
        CollectorView::Complete(_) => Err(ManchesterError::NoAddingToComplete),
    }
}

/// A whole symbol sequence fed to an empty collector.
pub open spec fn manchester_run(es: Seq<ManchesterElement>) -> Result<CollectorView, ManchesterError>
    decreases es.len(),
{
    if es.len() == 0 {
        Ok(CollectorView::Empty)
    } else {
        match manchester_run(es.drop_last()) {
            Ok(s) => manchester_step(s, es.last()),
            Err(e) => Err(e),
        }
    }
}

/// The frame a symbol sequence decodes to.
pub open spec fn manchester_frame(es: Seq<ManchesterElement>) -> Result<FrameView, ManchesterError> {
    match manchester_run(es) {
        Err(e) => Err(e),
        Ok(CollectorView::Complete(b)) => match decode_bits(b) {
            Ok(v) => Ok(v),
            Err(e) => Err(ManchesterError::Frame(e)),
        },
        Ok(_) => Err(ManchesterError::IncompleteFrame),
    }
}

proof fn lemma_run_len(es: Seq<ManchesterElement>)
    ensures
        manchester_run(es) is Ok ==> bit_count(manchester_run(es)->Ok_0) <= es.len(),
    decreases es.len(),
{
    if es.len() > 0 {
        lemma_run_len(es.drop_last());
    }
}

proof fn lemma_run_err(es: Seq<ManchesterElement>, i: int)
    requires
        0 <= i <= es.len(),
        manchester_run(es.take(i)) is Err,
    ensures
        manchester_run(es) == manchester_run(es.take(i)),
    decreases es.len() - i,
{
    if i < es.len() {
        assert(es.take(i + 1).drop_last() == es.take(i));
        lemma_run_err(es, i + 1);
    } else {
        assert(es.take(i) == es);
    }
}

impl ManchesterCollector {
    /// Feeds one symbol; on an error the collector is left as it was.
    pub fn add_element(&mut self, element: &ManchesterElement) -> (r: Result<(), ManchesterError>)
        requires
            has_room(old(self)@),
        ensures
            match manchester_step(old(self)@, *element) {
                Ok(s) => r is Ok && final(self)@ == s,
                Err(e) => r == Err::<(), ManchesterError>(e) && final(self)@ == old(self)@,
            },
    {
        match self {
            ManchesterCollector::Empty => {
                if let ManchesterElement::D = element {
                    *self = ManchesterCollector::InProgress(Bits::empty());
                } else {
                    return Err(ManchesterError::FirstNotD);
                }
            },
            ManchesterCollector::InProgress(set) => match element {
                ManchesterElement::D => set.push(true),
                ManchesterElement::E => set.push(false),
                ManchesterElement::F => {
                    let data = set.copy();
                    *self = ManchesterCollector::Complete(CompleteCollector { data });
                },
            },
            ManchesterCollector::Complete(_) => return Err(ManchesterError::NoAddingToComplete),
        }
        Ok(())
    }
}

/// The symbols of a Manchester reply, in the order they were classified.
#[derive(Debug, PartialEq, Eq)]
pub struct ManchesterElementSet {
    element_set: Vec<ManchesterElement>,
}

/// Symbols read from the first interval of a pair, after a `D` (or at the start).
pub open spec fn odd_after_d(v: int, tick: int) -> Result<Seq<ManchesterElement>, ManchesterError> {
    if in_window(v, 3, 5, tick) {
        Ok(Seq::empty())
    } else if in_window(v, 7, 9, tick) {
        Ok(seq![ManchesterElement::E])
    } else if in_window(v, 11, 13, tick) {
        Ok(seq![ManchesterElement::F])
    } else {
        Err(ManchesterError::UnexpectedOddInterval(v as u16))
    }
}

/// Symbols read from the first interval of a pair, after an `E`.
pub open spec fn odd_after_e(v: int, tick: int) -> Result<Seq<ManchesterElement>, ManchesterError> {
    if in_window(v, 3, 5, tick) {
        Ok(seq![ManchesterElement::E])
    } else if in_window(v, 7, 9, tick) {
        Ok(seq![ManchesterElement::F])
    } else {
        Err(ManchesterError::UnexpectedOddInterval(v as u16))
    }
}

/// Symbols read from the second interval of a pair, given the symbol pushed last.
pub open spec fn even_after(cur: ManchesterElement, v: int, tick: int) -> Result<
    Seq<ManchesterElement>,
    ManchesterError,
> {
    match cur {
        ManchesterElement::E => if in_window(v, 3, 5, tick) {
            Ok(Seq::empty())
        } else if in_window(v, 7, 9, tick) {
            Ok(seq![ManchesterElement::D])
        } else {
            Err(ManchesterError::UnexpectedEvenInterval(v as u16))
        },
        _ => if in_window(v, 3, 5, tick) {
            Ok(seq![ManchesterElement::D])
        } else {
            Err(ManchesterError::UnexpectedEvenInterval(v as u16))
        },
    }
}

/// The symbols a pair of intervals adds after the context symbol `ctx` (`D` or `E`).
pub open spec fn pair_symbols(ctx: ManchesterElement, t: EntryTimesBoth, tick: int) -> Result<
    Seq<ManchesterElement>,
    ManchesterError,
> {
    let odd = if ctx == ManchesterElement::D {
        odd_after_d(t.first_len as int, tick)
    } else {
        odd_after_e(t.first_len as int, tick)
    };
    match odd {
        Err(e) => Err(e),
        Ok(o) => {
            let cur = if o.len() > 0 {
                o.last()
            } else {
                ctx
            };
            match t.second_len {
                None => Ok(o),
                Some(v) => match even_after(cur, v as int, tick) {
                    Ok(w) => Ok(o + w),
                    Err(e) => Err(e),
                },
            }
        },
    }
}

/// The symbols a pair of intervals adds to the sequence `es`. A stream starts with
/// an implied `D`; nothing may follow a final `F`.
pub open spec fn manchester_interval(es: Seq<ManchesterElement>, t: EntryTimesBoth, tick: int) -> Result<
    Seq<ManchesterElement>,
    ManchesterError,
> {
    if es.len() == 0 {
        match pair_symbols(ManchesterElement::D, t, tick) {
            Ok(s) => Ok(seq![ManchesterElement::D] + s),
            Err(e) => Err(e),
        }
    } else if es.last() == ManchesterElement::F {
        Err(ManchesterError::NoAddingToComplete)
    } else {
        pair_symbols(es.last(), t, tick)
    }
}

/// The symbols of a whole frame of paired intervals.
pub open spec fn manchester_elements(ts: Seq<EntryTimesBoth>, tick: int) -> Result<
    Seq<ManchesterElement>,
    ManchesterError,
>
    decreases ts.len(),
{
    if ts.len() == 0 {
        Ok(Seq::empty())
    } else {
        match manchester_elements(ts.drop_last(), tick) {
            Ok(es) => match manchester_interval(es, ts.last(), tick) {
                Ok(added) => Ok(es + added),
                Err(e) => Err(e),
            },
            Err(e) => Err(e),
        }
    }
}

impl ManchesterElementSet {
    pub closed spec fn view(&self) -> Seq<ManchesterElement> {
        self.element_set@
    }

    /// An empty symbol sequence.
    pub fn new() -> (r: Self)
        ensures
            r@ == Seq::<ManchesterElement>::empty(),
    {
        Self { element_set: Vec::new() }
    }

    /// The symbols, in order.
    pub fn elements(&self) -> (r: &[ManchesterElement])
        ensures
            r@ == self@,
    {
        self.element_set.as_slice()
    }

    /// Reads the second interval of a pair after the symbol `cur`.
    fn process_even<const TICK_LEN: u16>(cur: ManchesterElement, second_len: u16) -> (r: Result<
        Vec<ManchesterElement>,
        ManchesterError,
    >)
        ensures
            match even_after(cur, second_len as int, TICK_LEN as int) {
                Ok(s) => r is Ok && r->Ok_0@ == s,
                Err(e) => r == Err::<Vec<ManchesterElement>, ManchesterError>(e),
            },
    {
        let v = second_len as u32;
        let mut out: Vec<ManchesterElement> = Vec::new();
        match cur {
            ManchesterElement::E => {
                if window(v, 3, 5, TICK_LEN) {
                } else if window(v, 7, 9, TICK_LEN) {
                    out.push(ManchesterElement::D);
                } else {
                    return Err(ManchesterError::UnexpectedEvenInterval(second_len));
                }
            },
            _ => {
                if window(v, 3, 5, TICK_LEN) {
                    out.push(ManchesterElement::D);
                } else {
                    return Err(ManchesterError::UnexpectedEvenInterval(second_len));
                }
            },
        }
        assert(out@ =~= even_after(cur, second_len as int, TICK_LEN as int)->Ok_0);
        Ok(out)
    }

    /// Finishes a pair once its first interval has given `out`, with `ctx` the symbol before it.
    fn finish_pair<const TICK_LEN: u16>(
        ctx: ManchesterElement,
        out: Vec<ManchesterElement>,
        time_both: EntryTimesBoth,
    ) -> (r: Result<Vec<ManchesterElement>, ManchesterError>)
        requires
            ctx == ManchesterElement::D ==> odd_after_d(time_both.first_len as int, TICK_LEN as int)
                == Ok::<Seq<ManchesterElement>, ManchesterError>(out@),
            ctx == ManchesterElement::E ==> odd_after_e(time_both.first_len as int, TICK_LEN as int)
                == Ok::<Seq<ManchesterElement>, ManchesterError>(out@),
            ctx != ManchesterElement::F,
        ensures
            match pair_symbols(ctx, time_both, TICK_LEN as int) {
                Ok(s) => r is Ok && r->Ok_0@ == s,
                Err(e) => r == Err::<Vec<ManchesterElement>, ManchesterError>(e),
            },
    {
        let mut out = out;
        if let Some(second_len) = time_both.second_len {
            let cur = if out.len() > 0 {
                out[out.len() - 1]
            } else {
                ctx
            };
            let mut more = Self::process_even::<TICK_LEN>(cur, second_len)?;
            out.append(&mut more);
        }
        Ok(out)
    }

    /// The symbols a pair adds after a `D`.
    fn process_previous_d<const TICK_LEN: u16>(time_both: EntryTimesBoth) -> (r: Result<
        Vec<ManchesterElement>,
        ManchesterError,
    >)
        ensures
            match pair_symbols(ManchesterElement::D, time_both, TICK_LEN as int) {
                Ok(s) => r is Ok && r->Ok_0@ == s,
                Err(e) => r == Err::<Vec<ManchesterElement>, ManchesterError>(e),
            },
    {
        let first = time_both.first_len as u32;
        let mut out: Vec<ManchesterElement> = Vec::new();
        if window(first, 3, 5, TICK_LEN) {
        } else if window(first, 7, 9, TICK_LEN) {
            out.push(ManchesterElement::E);
        } else if window(first, 11, 13, TICK_LEN) {
            out.push(ManchesterElement::F);
        } else {
            return Err(ManchesterError::UnexpectedOddInterval(time_both.first_len));
        }
        assert(out@ =~= odd_after_d(first as int, TICK_LEN as int)->Ok_0);
        Self::finish_pair::<TICK_LEN>(ManchesterElement::D, out, time_both)
    }

    /// The symbols a pair adds after an `E`.
    fn process_previous_e<const TICK_LEN: u16>(time_both: EntryTimesBoth) -> (r: Result<
        Vec<ManchesterElement>,
        ManchesterError,
    >)
        ensures
            match pair_symbols(ManchesterElement::E, time_both, TICK_LEN as int) {
                Ok(s) => r is Ok && r->Ok_0@ == s,
                Err(e) => r == Err::<Vec<ManchesterElement>, ManchesterError>(e),
            },
    {
        let first = time_both.first_len as u32;
        let mut out: Vec<ManchesterElement> = Vec::new();
        if window(first, 3, 5, TICK_LEN) {
            out.push(ManchesterElement::E);
        } else if window(first, 7, 9, TICK_LEN) {
            out.push(ManchesterElement::F);
        } else {
            return Err(ManchesterError::UnexpectedOddInterval(time_both.first_len));
        }
        assert(out@ =~= odd_after_e(first as int, TICK_LEN as int)->Ok_0);
        Self::finish_pair::<TICK_LEN>(ManchesterElement::E, out, time_both)
    }

    /// Classifies one pair of intervals and appends its symbols; on an error the
    /// sequence is left as it was.
    pub(crate) fn add_time_both_interval<const TICK_LEN: u16>(
        &mut self,
        time_both: EntryTimesBoth,
    ) -> (r: Result<(), ManchesterError>)
        ensures
            match manchester_interval(old(self)@, time_both, TICK_LEN as int) {
                Ok(s) => r is Ok && final(self)@ == old(self)@ + s,
                Err(e) => r == Err::<(), ManchesterError>(e) && final(self)@ == old(self)@,
            },
    {
        let n = self.element_set.len();
        let mut added = if n == 0 {
            let mut rest = Self::process_previous_d::<TICK_LEN>(time_both)?;
            let mut lead: Vec<ManchesterElement> = Vec::new();
            lead.push(ManchesterElement::D);
            lead.append(&mut rest);
            lead
        } else {
            match self.element_set[n - 1] {
                ManchesterElement::D => Self::process_previous_d::<TICK_LEN>(time_both)?,
                ManchesterElement::E => Self::process_previous_e::<TICK_LEN>(time_both)?,
                ManchesterElement::F => return Err(ManchesterError::NoAddingToComplete),
            }
        };
        self.element_set.append(&mut added);
        Ok(())
    }

    /// Classifies the pairs of a frame into symbols.
    pub fn from_times_both<const TICK_LEN: u16>(times_both: SetTimesBoth<TICK_LEN>) -> (r: Result<
        Self,
        ManchesterError,
    >)
        ensures
            match manchester_elements(times_both@, TICK_LEN as int) {
                Ok(es) => r is Ok && r->Ok_0@ == es,
                Err(e) => r == Err::<Self, ManchesterError>(e),
            },
    {
        times_both.convert_to_manchester()
    }

    /// Feeds the symbols to a collector and reads the finished bits as a frame.
    pub fn collect_frame(&self) -> (r: Result<Frame, ManchesterError>)
        requires
            self@.len() < max_bits(),
        ensures
            match r {
                Ok(f) => manchester_frame(self@) == Ok::<FrameView, ManchesterError>(f@),
                Err(e) => manchester_frame(self@) == Err::<FrameView, ManchesterError>(e),
            },
    {
        let ghost es = self@;
        let mut collector = ManchesterCollector::Empty;
        let mut i: usize = 0;
        while i < self.element_set.len()
            invariant
                es == self@,
                es.len() < max_bits(),
                i <= es.len(),
                manchester_run(es.take(i as int)) == Ok::<CollectorView, ManchesterError>(
                    collector@,
                ),
            decreases es.len() - i,
        {
            proof {
                lemma_run_len(es.take(i as int));
                assert(es.take(i + 1).drop_last() == es.take(i as int));
            }
            let res = collector.add_element(&self.element_set[i]);
            if let Err(e) = res {
                proof {
                    lemma_run_err(es, i + 1);
                }
                return Err(e);
            }
            i += 1;
        }
        assert(es.take(es.len() as int) == es);
        if let ManchesterCollector::Complete(complete_collector) = collector {
            match complete_collector.to_frame() {
                Ok(f) => Ok(f),
                Err(e) => Err(ManchesterError::Frame(e)),
            }
        } else {
            Err(ManchesterError::IncompleteFrame)
        }
    }
}

impl<const TICK_LEN: u16> SetTimesBoth<TICK_LEN> {
    /// Classifies the pairs of this frame as Manchester symbols.
    pub fn convert_to_manchester(&self) -> (r: Result<ManchesterElementSet, ManchesterError>)
        ensures
            match manchester_elements(self@, TICK_LEN as int) {
                Ok(es) => r is Ok && r->Ok_0@ == es,
                Err(e) => r == Err::<ManchesterElementSet, ManchesterError>(e),
            },
    {
        let entries = self.entries();
        let ghost ts = self@;
        let mut set = ManchesterElementSet::new();
        let mut i: usize = 0;
        while i < entries.len()
            invariant
                entries@ == ts,
                ts == self@,
                i <= ts.len(),
                manchester_elements(ts.take(i as int), TICK_LEN as int) == Ok::<
                    Seq<ManchesterElement>,
                    ManchesterError,
                >(set@),
            decreases ts.len() - i,
        {
            assert(ts.take(i + 1).drop_last() == ts.take(i as int));
            assert(ts.take(i + 1).last() == ts[i as int]);
            let res = set.add_time_both_interval::<TICK_LEN>(entries[i]);
            if let Err(e) = res {
                proof {
                    assert(manchester_elements(ts.take(i + 1), TICK_LEN as int) == Err::<
                        Seq<ManchesterElement>,
                        ManchesterError,
                    >(e));
                    lemma_elements_err(ts, TICK_LEN as int, i + 1);
                    assert(manchester_elements(ts, TICK_LEN as int) == Err::<
                        Seq<ManchesterElement>,
                        ManchesterError,
                    >(e));
                }
                return Err(e);
            }
            i += 1;
        }
        assert(ts.take(ts.len() as int) == ts);
        Ok(set)
    }
}

proof fn lemma_elements_err(ts: Seq<EntryTimesBoth>, tick: int, i: int)
    requires
        0 <= i <= ts.len(),
        manchester_elements(ts.take(i), tick) is Err,
    ensures
        manchester_elements(ts, tick) == manchester_elements(ts.take(i), tick),
    decreases ts.len() - i,
{
    if i < ts.len() {
        assert(ts.take(i + 1).drop_last() == ts.take(i));
        lemma_elements_err(ts, tick, i + 1);
    } else {
        assert(ts.take(i) == ts);
    }
}

impl Default for ManchesterElementSet {
    fn default() -> (r: Self)
        ensures
            r@ == Seq::<ManchesterElement>::empty(),
    {
        Self::new()
    }
}

} // verus!
