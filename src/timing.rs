//! Timing windows and the splitting of a capture at idle gaps.
use vstd::prelude::*;

verus! {

/// `v` lies between `lo` and `hi` tick lengths, both ends included.
pub open spec fn in_window(v: int, lo: int, hi: int, tick: int) -> bool {
    lo * tick <= v && v <= hi * tick
}

/// Intervals longer than this many tick lengths separate frames.
pub open spec fn gap_limit(tick: int) -> int {
    19 * tick
}

/// Tests whether `v` lies in the window from `lo` to `hi` tick lengths.
pub fn window(v: u32, lo: u32, hi: u32, tick: u16) -> (r: bool)
    requires
        lo <= hi <= 19,
    ensures
        r == in_window(v as int, lo as int, hi as int, tick as int),
{
    assert(lo * tick <= 19 * 65535 && hi * tick <= 19 * 65535) by (nonlinear_arith)
        requires
            lo <= hi <= 19,
            tick <= 65535,
    ;
    let t = tick as u32;
    v >= lo * t && v <= hi * t
}

/// The pieces of `s` between the intervals longer than `limit`, as slice splitting
/// gives them: one more piece than there are such intervals, empty ones included.
pub open spec fn split_gaps(s: Seq<u16>, limit: int) -> Seq<Seq<u16>>
    decreases s.len(),
{
    if s.len() == 0 {
        seq![Seq::<u16>::empty()]
    } else {
        let rest = split_gaps(s.drop_last(), limit);
        if s.last() as int > limit {
            rest.push(Seq::<u16>::empty())
        } else {
            rest.update(rest.len() - 1, rest.last().push(s.last()))
        }
    }
}

pub proof fn lemma_split_nonempty(s: Seq<u16>, limit: int)
    ensures
        split_gaps(s, limit).len() >= 1,
    decreases s.len(),
{
    if s.len() > 0 {
        lemma_split_nonempty(s.drop_last(), limit);
    }
}

pub proof fn lemma_split_piece_len(s: Seq<u16>, limit: int)
    ensures
        forall|i: int|
            0 <= i < split_gaps(s, limit).len() ==> #[trigger] split_gaps(s, limit)[i].len()
                <= s.len(),
    decreases s.len(),
{
    lemma_split_nonempty(s, limit);
    if s.len() > 0 {
        lemma_split_nonempty(s.drop_last(), limit);
        lemma_split_piece_len(s.drop_last(), limit);
    }
}

pub open spec fn views(v: Seq<Vec<u16>>) -> Seq<Seq<u16>> {
    v.map_values(|x: Vec<u16>| x@)
}

/// Splits `buf` at every interval longer than `limit` tick units.
pub fn split_at_gaps(buf: &[u16], limit: u32) -> (r: Vec<Vec<u16>>)
    ensures
        views(r@) == split_gaps(buf@, limit as int),
{
    let mut out: Vec<Vec<u16>> = Vec::new();
    let mut cur: Vec<u16> = Vec::new();
    let mut i: usize = 0;
    while i < buf.len()
        invariant
            i <= buf@.len(),
            split_gaps(buf@.take(i as int), limit as int) == views(out@).push(cur@),
        decreases buf@.len() - i,
    {
        let ghost pre = buf@.take(i as int);
        let ghost next = buf@.take(i + 1);
        assert(next.drop_last() == pre);
        let ghost before = views(out@).push(cur@);
        let v = buf[i];
        if v as u32 > limit {
            let ghost done = cur@;
            let ghost old_out = out@;
            out.push(cur);
            cur = Vec::new();
            assert(views(out@) =~= views(old_out).push(done));
            assert(views(out@).push(cur@) =~= before.push(Seq::<u16>::empty()));
        } else {
            cur.push(v);
            assert(views(out@).push(cur@) =~= before.update(before.len() - 1, before.last().push(v)));
        }
        i += 1;
    }
    assert(buf@.take(buf@.len() as int) == buf@);
    out.push(cur);
    assert(views(out@) =~= split_gaps(buf@, limit as int));
    out
}

} // verus!
