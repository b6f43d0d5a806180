//! Miller decoding that reads the frame as soon as the stream ends, and extraction
//! of the frames of a longer capture.
use crate::bits::{max_bits, Bits};
use crate::error::MillerError;
use crate::frame::{decode_bits, CompleteCollector, Frame, FrameView};
use crate::miller::{lemma_down_err, miller_bits_step, miller_down_elements, miller_down_interval};
use crate::timing::{lemma_split_piece_len, split_at_gaps, split_gaps, views};
use vstd::prelude::*;

pub use crate::miller::MillerElement;

verus! {

/// Gathers the bits of a Miller symbol stream and holds the frame once it ends.
#[derive(Debug, PartialEq, Eq)]
pub enum MillerCollector {
    Empty,
    InProgress(Bits),
    Complete(Frame),
}

/// The state of a [`MillerCollector`].
pub enum ReworkedView {
    Empty,
    InProgress(Seq<bool>),
    Complete(FrameView),
}

impl MillerCollector {
    pub open spec fn view(&self) -> ReworkedView {
        match self {
            MillerCollector::Empty => ReworkedView::Empty,
            MillerCollector::InProgress(b) => ReworkedView::InProgress(b@),
            MillerCollector::Complete(f) => ReworkedView::Complete(f@),
        }
    }
}

/// One symbol fed to the collector; the bits are read as a frame when the stream ends.
pub open spec fn reworked_step(s: ReworkedView, e: MillerElement) -> Result<ReworkedView, MillerError> {
    match s {
        ReworkedView::Empty => if e == MillerElement::Z {
            Ok(ReworkedView::InProgress(Seq::empty()))
        } else {
            Err(MillerError::WrongMillerSequence)
        },
        ReworkedView::InProgress(b) => match miller_bits_step(b, e) {
            Ok((nb, done)) => if !done {
                Ok(ReworkedView::InProgress(nb))
            } else {
                match decode_bits(nb) {
                    Ok(v) => Ok(ReworkedView::Complete(v)),
                    Err(fe) => Err(MillerError::Frame(fe)),
                }
            },
            Err(x) => Err(x),
        },
        ReworkedView::Complete(_) => Err(MillerError::WrongMillerSequence),
    }
}

/// A whole symbol sequence fed to an empty collector.
pub open spec fn reworked_run(es: Seq<MillerElement>) -> Result<ReworkedView, MillerError>
    decreases es.len(),
{
    if es.len() == 0 {
        Ok(ReworkedView::Empty)
    } else {
        match reworked_run(es.drop_last()) {
            Ok(s) => reworked_step(s, es.last()),
            Err(e) => Err(e),
        }
    }
}

/// The frame a symbol sequence decodes to.
pub open spec fn reworked_frame(es: Seq<MillerElement>) -> Result<FrameView, MillerError> {
    match reworked_run(es) {
        Err(e) => Err(e),
        Ok(ReworkedView::Complete(v)) => Ok(v),
        Ok(_) => Err(MillerError::IncompleteFrame),
    }
}

/// The symbols with the end of the stream supplied: `Y, Y` after a final `X`, `Y`
/// after a final `Z`.
pub open spec fn force_terminated(es: Seq<MillerElement>) -> Seq<MillerElement> {
    if es.len() == 0 {
        es
    } else if es.last() == MillerElement::X {
        es.push(MillerElement::Y).push(MillerElement::Y)
    } else if es.last() == MillerElement::Z {
        es.push(MillerElement::Y)
    } else {
        es
    }
}

/// What a frame of time-down intervals decodes to, the end of the stream supplied.
pub open spec fn segment_result(seg: Seq<u16>, tick: int) -> Result<FrameView, MillerError> {
    match miller_down_elements(seg, tick) {
        Err(e) => Err(e),
        Ok(es) => reworked_frame(force_terminated(es)),
    }
}

pub open spec fn run_bits(s: ReworkedView) -> int {
    match s {
        ReworkedView::InProgress(b) => b.len() as int,
        _ => 0,
    }
}

proof fn lemma_run_len(es: Seq<MillerElement>)
    ensures
        reworked_run(es) is Ok ==> run_bits(reworked_run(es)->Ok_0) <= es.len(),
    decreases es.len(),
{
    if es.len() > 0 {
        lemma_run_len(es.drop_last());
    }
}

proof fn lemma_run_err(es: Seq<MillerElement>, i: int)
    requires
        0 <= i <= es.len(),
        reworked_run(es.take(i)) is Err,
    ensures
        reworked_run(es) == reworked_run(es.take(i)),
    decreases es.len() - i,
{
    if i < es.len() {
        assert(es.take(i + 1).drop_last() == es.take(i));
        lemma_run_err(es, i + 1);
    } else {
        assert(es.take(i) == es);
    }
}

proof fn lemma_down_len(vs: Seq<u16>, tick: int)
    ensures
        miller_down_elements(vs, tick) is Ok ==> miller_down_elements(vs, tick)->Ok_0.len() <= 3
            * vs.len(),
    decreases vs.len(),
{
    if vs.len() > 0 {
        lemma_down_len(vs.drop_last(), tick);
    }
}

impl MillerCollector {
    /// Feeds one symbol; on an error the collector is left as it was.
    pub fn add_element(&mut self, element: MillerElement) -> (r: Result<(), MillerError>)
        requires
            run_bits(old(self)@) < max_bits(),
        ensures
            match reworked_step(old(self)@, element) {
                Ok(s) => r is Ok && final(self)@ == s,
                Err(e) => r == Err::<(), MillerError>(e) && final(self)@ == old(self)@,
            },
    {
        match self {
            MillerCollector::Empty => {
                if let MillerElement::Z = element {
                    *self = MillerCollector::InProgress(Bits::empty());
                } else {
                    return Err(MillerError::WrongMillerSequence);
                }
            },
            MillerCollector::InProgress(set) => {
                let n = set.len();
                let last_bit = if n == 0 {
                    None
                } else {
                    Some(set.get(n - 1))
                };
                match element {
                    MillerElement::X => set.push(true),
                    MillerElement::Y => match last_bit {
                        None => return Err(MillerError::WrongMillerSequence),
                        Some(false) => {
                            let mut data = set.copy();
                            data.pop();
                            let collector = CompleteCollector { data };
                            let frame = match collector.to_frame() {
                                Ok(f) => f,
                                Err(e) => return Err(MillerError::Frame(e)),
                            };
                            *self = MillerCollector::Complete(frame);
                        },
                        Some(true) => set.push(false),
                    },
                    MillerElement::Z => {
                        if let Some(true) = last_bit {
                            return Err(MillerError::WrongMillerSequence);
                        } else {
                            set.push(false);
                        }
                    },
                }
            },
            MillerCollector::Complete(_) => return Err(MillerError::WrongMillerSequence),
        }
        Ok(())
    }
}

/// The symbols of a Miller request, in the order they were classified.
#[derive(Debug, PartialEq, Eq)]
pub struct MillerElementSet {
    pub element_set: Vec<MillerElement>,
}

impl MillerElementSet {
    pub open spec fn view(&self) -> Seq<MillerElement> {
        self.element_set@
    }

    /// An empty symbol sequence.
    pub fn new() -> (r: Self)
        ensures
            r@ == Seq::<MillerElement>::empty(),
    {
        Self { element_set: Vec::new() }
    }

    /// Classifies one time-down interval and appends its symbols; on an error the
    /// sequence is left as it was.
    pub fn add_time_down_interval<const TICK_LEN: u16>(&mut self, interval: u16) -> (r: Result<
        (),
        MillerError,
    >)
        ensures
            match miller_down_interval(old(self)@, interval, TICK_LEN as int) {
                Ok(s) => r is Ok && final(self)@ == old(self)@ + s,
                Err(e) => r == Err::<(), MillerError>(e) && final(self)@ == old(self)@,
            },
    {
        let mut added = crate::miller::MillerElementSet::down_interval_symbols::<TICK_LEN>(
            &self.element_set,
            interval,
        )?;
        self.element_set.append(&mut added);
        Ok(())
    }

    /// Supplies the end of a stream cut short: `Y, Y` after a final `X`, `Y` after a
    /// final `Z`.
    pub fn terminate(&mut self)
        ensures
            final(self)@ == force_terminated(old(self)@),
    {
        let n = self.element_set.len();
        if n > 0 {
            match self.element_set[n - 1] {
                MillerElement::X => {
                    self.element_set.push(MillerElement::Y);
                    self.element_set.push(MillerElement::Y);
                },
                MillerElement::Y => {},
                MillerElement::Z => self.element_set.push(MillerElement::Y),
            }
        }
    }

    /// Feeds the symbols to a collector and returns the frame it finished with.
    pub fn collect_frame(self) -> (r: Result<Frame, MillerError>)
        requires
            self@.len() < max_bits(),
        ensures
            match r {
                Ok(f) => reworked_frame(self@) == Ok::<FrameView, MillerError>(f@),
                Err(e) => reworked_frame(self@) == Err::<FrameView, MillerError>(e),
            },
    {
        let ghost es = self@;
        let mut collector = MillerCollector::Empty;
        let mut i: usize = 0;
        while i < self.element_set.len()
            invariant
                es == self@,
                es.len() < max_bits(),
                i <= es.len(),
                reworked_run(es.take(i as int)) == Ok::<ReworkedView, MillerError>(collector@),
            decreases es.len() - i,
        {
            proof {
                lemma_run_len(es.take(i as int));
                assert(es.take(i + 1).drop_last() == es.take(i as int));
            }
            let res = collector.add_element(self.element_set[i]);
            if let Err(e) = res {
                proof {
                    lemma_run_err(es, i + 1);
                }
                return Err(e);
            }
            i += 1;
        }
        assert(es.take(es.len() as int) == es);
        if let MillerCollector::Complete(frame) = collector {
            Ok(frame)
        } else {
            Err(MillerError::IncompleteFrame)
        }
    }
}

/// The time-down intervals of one frame, measured in ticks of length `TICK_LEN`.
#[derive(Debug, PartialEq, Eq)]
pub struct MillerTimesDown<'a, const TICK_LEN: u16> {
    time_down_set: &'a [u16],
}

impl<'a, const TICK_LEN: u16> MillerTimesDown<'a, TICK_LEN> {
    pub closed spec fn view(&self) -> Seq<u16> {
        self.time_down_set@
    }

    /// A frame made of the given intervals.
    pub fn from_slice(time_down_set: &'a [u16]) -> (r: Self)
        ensures
            r@ == time_down_set@,
    {
        MillerTimesDown { time_down_set }
    }

    /// Classifies the intervals, supplies the end of the stream if it was cut short,
    /// and reads the frame.
    pub fn convert(self) -> (r: Result<Frame, MillerError>)
        requires
            self@.len() < max_bits() / 4,
        ensures
            match r {
                Ok(f) => segment_result(self@, TICK_LEN as int) == Ok::<FrameView, MillerError>(
                    f@,
                ),
                Err(e) => segment_result(self@, TICK_LEN as int) == Err::<FrameView, MillerError>(
                    e,
                ),
            },
    {
        let vs = self.time_down_set;
        let ghost s = self@;
        let mut set = MillerElementSet::new();
        let mut i: usize = 0;
        while i < vs.len()
            invariant
                vs@ == s,
                s == self@,
                s.len() < max_bits() / 4,
                i <= s.len(),
                miller_down_elements(s.take(i as int), TICK_LEN as int) == Ok::<
                    Seq<MillerElement>,
                    MillerError,
                >(set@),
            decreases s.len() - i,
        {
            assert(s.take(i + 1).drop_last() == s.take(i as int));
            assert(s.take(i + 1).last() == s[i as int]);
            let res = set.add_time_down_interval::<TICK_LEN>(vs[i]);
            if let Err(e) = res {
                proof {
                    assert(miller_down_elements(s.take(i + 1), TICK_LEN as int) == Err::<
                        Seq<MillerElement>,
                        MillerError,
                    >(e));
                    lemma_down_err(s, TICK_LEN as int, i + 1);
                }
                return Err(e);
            }
            i += 1;
        }
        assert(s.take(s.len() as int) == s);
        proof {
            lemma_down_len(s, TICK_LEN as int);
        }
        set.terminate();
        set.collect_frame()
    }
}

/// The frames that the given pieces decode to, in order; pieces that do not decode
/// give none.
pub open spec fn decoded_frames(segs: Seq<Seq<u16>>, tick: int) -> Seq<FrameView>
    decreases segs.len(),
{
    if segs.len() == 0 {
        Seq::empty()
    } else {
        let rest = decoded_frames(segs.drop_last(), tick);
        match segment_result(segs.last(), tick) {
            Ok(v) => rest.push(v),
            Err(_) => rest,
        }
    }
}

/// The frames decoded from the pieces of a capture between its first and its last,
/// which may hold a frame cut short and are left out.
pub open spec fn interior_frames(buf: Seq<u16>, tick: int) -> Seq<FrameView> {
    let segs = split_gaps(buf, 19 * tick);
    if segs.len() < 3 {
        Seq::empty()
    } else {
        decoded_frames(segs.subrange(1, segs.len() - 1), tick)
    }
}

/// The items of `s` whose place in `keep` is `true`, in order.
pub open spec fn select(s: Seq<FrameView>, keep: Seq<bool>) -> Seq<FrameView>
    decreases s.len(),
{
    if s.len() == 0 {
        Seq::empty()
    } else {
        let rest = select(s.drop_last(), keep.drop_last());
        if keep.last() {
            rest.push(s.last())
        } else {
            rest
        }
    }
}

/// Keeping every item selects the whole sequence.
pub proof fn lemma_select_all(s: Seq<FrameView>, keep: Seq<bool>)
    requires
        keep.len() == s.len(),
        forall|i: int| 0 <= i < keep.len() ==> #[trigger] keep[i],
    ensures
        select(s, keep) == s,
    decreases s.len(),
{
    if s.len() > 0 {
        lemma_select_all(s.drop_last(), keep.drop_last());
        assert(s.drop_last().push(s.last()) == s);
    }
}

/// A filter that accepts every frame lets through every frame decoded from the
/// interior pieces, in order: the result depends only on those pieces.
pub proof fn lemma_accept_all<P: Fn(&Frame) -> bool>(
    filter: P,
    buffer: Seq<u16>,
    tick: int,
    keep: Seq<bool>,
    r: Seq<FrameView>,
)
    requires
        forall|f: Frame, b: bool| #[trigger] filter.ensures((&f,), b) ==> b,
        keep.len() == interior_frames(buffer, tick).len(),
        r == select(interior_frames(buffer, tick), keep),
        forall|i: int|
            0 <= i < keep.len() ==> #[trigger] filter_answered(
                filter,
                interior_frames(buffer, tick)[i],
                keep[i],
            ),
    ensures
        r == interior_frames(buffer, tick),
{
    assert forall|i: int| 0 <= i < keep.len() implies #[trigger] keep[i] by {
        assert(filter_answered(filter, interior_frames(buffer, tick)[i], keep[i]));
    }
    lemma_select_all(interior_frames(buffer, tick), keep);
}

/// The filter, handed a frame whose content is `v`, may have answered `b`.
pub open spec fn filter_answered<P: Fn(&Frame) -> bool>(filter: P, v: FrameView, b: bool) -> bool {
    exists|f: Frame| f@ == v && #[trigger] filter.ensures((&f,), b)
}

pub open spec fn frame_views(fs: Seq<Frame>) -> Seq<FrameView> {
    fs.map_values(|f: Frame| f@)
}

impl Frame {
    /// Splits a capture of time-down intervals at the gaps longer than 19 tick
    /// lengths, decodes every piece but the first and the last, and returns, in
    /// order, the frames that `frame_filter` accepts. A piece that does not decode
    /// gives no frame.
    pub fn process_buffer_miller_skip_tails<P, const TICK_LEN: u16>(
        buffer: &[u16],
        frame_filter: P,
    ) -> (r: Vec<Self>) where P: Fn(&Self) -> bool
        requires
            buffer@.len() < max_bits() / 4,
            forall|f: Frame| frame_filter.requires((&f,)),
        ensures
            exists|keep: Seq<bool>|
                {
                    &&& keep.len() == interior_frames(buffer@, TICK_LEN as int).len()
                    &&& frame_views(r@) == #[trigger] select(
                        interior_frames(buffer@, TICK_LEN as int),
                        keep,
                    )
                    &&& forall|i: int|
                        0 <= i < keep.len() ==> #[trigger] filter_answered(
                            frame_filter,
                            interior_frames(buffer@, TICK_LEN as int)[i],
                            keep[i],
                        )
                },
            forall|k: int| 0 <= k < r@.len() ==> frame_filter.ensures((&r@[k],), true),
            split_gaps(buffer@, 19 * TICK_LEN as int).len() < 3 ==> r@.len() == 0,
    {
        let ghost tick = TICK_LEN as int;
        let segs = split_at_gaps(buffer, 19 * (TICK_LEN as u32));
        let ghost all = split_gaps(buffer@, 19 * tick);
        let n = segs.len();
        let mut frames_set: Vec<Frame> = Vec::new();
        if n < 3 {
            assert(frame_views(frames_set@) =~= select(interior_frames(buffer@, tick), Seq::empty()));
            return frames_set;
        }
        proof {
            lemma_split_piece_len(buffer@, 19 * tick);
        }
        let ghost mut keep: Seq<bool> = Seq::empty();
        let mut i: usize = 1;
        while i < n - 1
            invariant
                n == segs@.len(),
                views(segs@) == all,
                all == split_gaps(buffer@, 19 * tick),
                tick == TICK_LEN as int,
                n >= 3,
                1 <= i <= n - 1,
                buffer@.len() < max_bits() / 4,
                forall|j: int| 0 <= j < all.len() ==> #[trigger] all[j].len() <= buffer@.len(),
                forall|f: Frame| frame_filter.requires((&f,)),
                keep.len() == decoded_frames(all.subrange(1, i as int), tick).len(),
                forall|j: int|
                    0 <= j < keep.len() ==> #[trigger] filter_answered(
                        frame_filter,
                        decoded_frames(all.subrange(1, i as int), tick)[j],
                        keep[j],
                    ),
                frame_views(frames_set@) == select(decoded_frames(all.subrange(1, i as int), tick), keep),
                forall|k: int| 0 <= k < frames_set@.len() ==> frame_filter.ensures((&frames_set@[k],), true),
            decreases n - 1 - i,
        {
            let ghost before = all.subrange(1, i as int);
            let ghost after = all.subrange(1, i + 1);
            assert(after.drop_last() == before);
            assert(after.last() == all[i as int]);
            assert(segs@[i as int]@ == all[i as int]);
            let times = MillerTimesDown::<TICK_LEN>::from_slice(segs[i].as_slice());
            assert(times@ == all[i as int]);
            let ghost old_keep = keep;
            match times.convert() {
                Ok(frame) => {
                    let accept = frame_filter(&frame);
                    let ghost fv = frame@;
                    let ghost fr = frame;
                    let ghost old_set = frames_set@;
                    assert(frame_filter.ensures((&fr,), accept));
                    assert(fr@ == fv);
                    if accept {
                        frames_set.push(frame);
                        assert(frame_views(frames_set@) =~= frame_views(old_set).push(fv));
                    }
                    proof {
                        keep = keep.push(accept);
                        assert(decoded_frames(after, tick) == decoded_frames(before, tick).push(fv));
                        assert(filter_answered(frame_filter, fv, accept));
                        assert forall|j: int| 0 <= j < keep.len() implies #[trigger] filter_answered(
                            frame_filter,
                            decoded_frames(after, tick)[j],
                            keep[j],
                        ) by {
                            if j < old_keep.len() {
                                assert(keep[j] == old_keep[j]);
                                assert(decoded_frames(after, tick)[j] == decoded_frames(before, tick)[j]);
                                assert(filter_answered(frame_filter, decoded_frames(before, tick)[j], old_keep[j]));
                            }
                        }
                        assert(keep.drop_last() == old_keep);
                        assert(decoded_frames(after, tick).drop_last() == decoded_frames(before, tick));
                    }
                },
                Err(_) => {
                    assert(decoded_frames(after, tick) == decoded_frames(before, tick));
                },
            }
            i += 1;
        }
        assert(all.subrange(1, (n - 1) as int) == all.subrange(1, all.len() - 1));
        assert(frame_views(frames_set@) == select(interior_frames(buffer@, tick), keep));
        frames_set
    }
}

impl Default for MillerElementSet {
    fn default() -> (r: Self)
        ensures
            r@ == Seq::<MillerElement>::empty(),
    {
        Self::new()
    }
}

} // verus!
