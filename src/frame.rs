//! Interpretation of a finished bit sequence as a frame.
use crate::bits::Bits;
use crate::error::FrameError;
use crc::{Crc, CRC_16_ISO_IEC_14443_3_A};
use vstd::arithmetic::div_mod::lemma_mod_breakdown;
use vstd::prelude::*;

verus! {

/// A decoded frame.
#[derive(Debug, PartialEq, Eq)]
pub enum Frame {
    /// Fewer than 8 bits, packed least significant bit first.
    Short(u8),
    /// Exactly 8 bits, or more bits than 8 in a count that is not a multiple of 9.
    SddBits(Bits),
    /// Bytes with checked parity, too short for a CRC or with a CRC that does not match.
    SddCleanCut(Vec<u8>),
    /// Bytes with checked parity and matching CRC, the CRC removed.
    Standard(Vec<u8>),
}

/// The mathematical content of a [`Frame`].
pub enum FrameView {
    Short(u8),
    SddBits(Seq<bool>),
    SddCleanCut(Seq<u8>),
    Standard(Seq<u8>),
}

impl Frame {
    pub open spec fn view(&self) -> FrameView {
        match self {
            Frame::Short(b) => FrameView::Short(*b),
            Frame::SddBits(v) => FrameView::SddBits(v@),
            Frame::SddCleanCut(v) => FrameView::SddCleanCut(v@),
            Frame::Standard(v) => FrameView::Standard(v@),
        }
    }
}

/// A frame together with the line code that carried it.
#[derive(Debug, PartialEq, Eq)]
pub enum FrameAttributed {
    Manchester(Frame),
    Miller(Frame),
}

/// A finished bit sequence, ready to be read as a frame.
#[derive(Debug, PartialEq, Eq)]
pub struct CompleteCollector {
    pub data: Bits,
}

/// The CRC-16 of ISO/IEC 14443-3 Type A over some bytes.
pub uninterp spec fn crc_a_of(data: Seq<u8>) -> u16;

/// Relies on `crc::Crc::<u16>::checksum` with the `CRC_16_ISO_IEC_14443_3_A`
/// parameters: the checksum depends on the bytes alone.
#[verifier::external_body]
fn crc_a(data: &[u8]) -> (r: u16)
    ensures
        r == crc_a_of(data@),
{
    Crc::<u16>::new(&CRC_16_ISO_IEC_14443_3_A).checksum(data)
}

/// `2` to the power `i`.
pub open spec fn weight(i: nat) -> nat
    decreases i,
{
    if i == 0 {
        1
    } else {
        2 * weight((i - 1) as nat)
    }
}

/// The number whose binary digits are `s`, least significant first.
pub open spec fn pack_lsb(s: Seq<bool>) -> nat
    decreases s.len(),
{
    if s.len() == 0 {
        0
    } else {
        pack_lsb(s.drop_last()) + if s.last() {
            weight((s.len() - 1) as nat)
        } else {
            0
        }
    }
}

/// Odd parity: starts `true` and flips at every set bit.
pub open spec fn parity_of(s: Seq<bool>) -> bool
    decreases s.len(),
{
    if s.len() == 0 {
        true
    } else {
        parity_of(s.drop_last()) != s.last()
    }
}

/// The eight data bits of the `j`-th nine-bit group.
pub open spec fn group_data(bits: Seq<bool>, j: int) -> Seq<bool> {
    bits.subrange(9 * j, 9 * j + 8)
}

/// The parity bit of the `j`-th group matches its data bits.
pub open spec fn group_parity_ok(bits: Seq<bool>, j: int) -> bool {
    parity_of(group_data(bits, j)) == bits[9 * j + 8]
}

pub open spec fn all_parity_ok(bits: Seq<bool>) -> bool {
    forall|j: int| 0 <= j < bits.len() / 9 ==> #[trigger] group_parity_ok(bits, j)
}

/// The data byte of each nine-bit group.
pub open spec fn group_bytes(bits: Seq<bool>) -> Seq<u8> {
    Seq::new(bits.len() / 9, |j: int| pack_lsb(group_data(bits, j)) as u8)
}

/// A 16-bit number from two bytes, low byte first.
pub open spec fn le_u16(lo: u8, hi: u8) -> int {
    lo as int + 256 * hi as int
}

/// What a finished bit sequence decodes to.
pub open spec fn decode_bits(bits: Seq<bool>) -> Result<FrameView, FrameError> {
    let n = bits.len();
    if n == 0 {
        Err(FrameError::EmptyFrame)
    } else if n < 8 {
        Ok(FrameView::Short(pack_lsb(bits) as u8))
    } else if n == 8 || n % 9 != 0 {
        Ok(FrameView::SddBits(bits))
    } else if !all_parity_ok(bits) {
        Err(FrameError::ParityBit)
    } else {
        let bytes = group_bytes(bits);
        let k = bytes.len() as int;
        if k < 3 {
            Ok(FrameView::SddCleanCut(bytes))
        } else if crc_a_of(bytes.take(k - 2)) as int == le_u16(bytes[k - 2], bytes[k - 1]) {
            Ok(FrameView::Standard(bytes.take(k - 2)))
        } else {
            Ok(FrameView::SddCleanCut(bytes))
        }
    }
}

/// The result of decoding `bits`, as an executable result relates to it.
pub open spec fn frame_result_matches(bits: Seq<bool>, r: Result<Frame, FrameError>) -> bool {
    match r {
        Ok(f) => decode_bits(bits) == Ok::<FrameView, FrameError>(f@),
        Err(e) => decode_bits(bits) == Err::<FrameView, FrameError>(e),
    }
}

/// The eight bits of a byte, least significant first.
pub open spec fn byte_bits(b: u8) -> Seq<bool> {
    Seq::new(8, |i: int| (b as nat / weight(i as nat)) % 2 == 1)
}

/// A byte as it travels: its eight bits, then its parity bit.
pub open spec fn parity_group(b: u8) -> Seq<bool> {
    byte_bits(b).push(parity_of(byte_bits(b)))
}

/// Bytes as they travel, one nine-bit group each.
pub open spec fn encode_bytes(bs: Seq<u8>) -> Seq<bool>
    decreases bs.len(),
{
    if bs.len() == 0 {
        Seq::empty()
    } else {
        encode_bytes(bs.drop_last()) + parity_group(bs.last())
    }
}

/// A payload followed by its CRC, low byte first.
pub open spec fn with_crc(p: Seq<u8>) -> Seq<u8> {
    let c = crc_a_of(p) as nat;
    p.push((c % 256) as u8).push((c / 256) as u8)
}

/// A sequence of 1 to 7 bits is a short frame holding those bits, least significant first.
pub proof fn lemma_short_frame(bits: Seq<bool>)
    requires
        1 <= bits.len() < 8,
    ensures
        pack_lsb(bits) < 128,
        decode_bits(bits) == Ok::<FrameView, FrameError>(FrameView::Short(pack_lsb(bits) as u8)),
{
    lemma_pack_bound(bits);
    lemma_weight_mono(bits.len(), 7);
    reveal_with_fuel(weight, 8);
}

/// Eight bits, or more than eight in a count not divisible by nine, come back verbatim.
pub proof fn lemma_bit_fragment(bits: Seq<bool>)
    requires
        bits.len() == 8 || (bits.len() > 8 && bits.len() % 9 != 0),
    ensures
        decode_bits(bits) == Ok::<FrameView, FrameError>(FrameView::SddBits(bits)),
{
}

/// One nine-bit group with a wrong parity bit fails the whole decode, whatever the
/// other groups hold.
pub proof fn lemma_parity_mismatch(bits: Seq<bool>, j: int)
    requires
        bits.len() > 8,
        bits.len() % 9 == 0,
        0 <= j < bits.len() / 9,
        parity_of(group_data(bits, j)) != bits[9 * j + 8],
    ensures
        decode_bits(bits) == Err::<FrameView, FrameError>(FrameError::ParityBit),
{
    assert(!group_parity_ok(bits, j));
}

proof fn lemma_weight_pos(i: nat)
    ensures
        weight(i) > 0,
    decreases i,
{
    if i > 0 {
        lemma_weight_pos((i - 1) as nat);
    }
}

proof fn lemma_pack_digits(v: nat, n: nat)
    ensures
        pack_lsb(Seq::new(n, |i: int| (v / weight(i as nat)) % 2 == 1)) == v % weight(n),
    decreases n,
{
    let s = Seq::new(n, |i: int| (v / weight(i as nat)) % 2 == 1);
    if n == 0 {
        assert(v % 1 == 0);
    } else {
        let m = (n - 1) as nat;
        let t = Seq::new(m, |i: int| (v / weight(i as nat)) % 2 == 1);
        assert(s.drop_last() == t);
        lemma_pack_digits(v, m);
        lemma_weight_pos(m);
        lemma_mod_breakdown(v as int, weight(m) as int, 2);
        assert(weight(n) == weight(m) * 2);
    }
}

proof fn lemma_byte_bits(b: u8)
    ensures
        pack_lsb(byte_bits(b)) == b as nat,
{
    lemma_pack_digits(b as nat, 8);
    reveal_with_fuel(weight, 9);
    assert(weight(8) == 256);
}

proof fn lemma_encode_groups(bs: Seq<u8>)
    ensures
        encode_bytes(bs).len() == 9 * bs.len(),
        forall|j: int|
            0 <= j < bs.len() ==> encode_bytes(bs).subrange(9 * j, 9 * j + 9) == parity_group(
                #[trigger] bs[j],
            ),
    decreases bs.len(),
{
    if bs.len() > 0 {
        let init = bs.drop_last();
        lemma_encode_groups(init);
        let e = encode_bytes(bs);
        let e0 = encode_bytes(init);
        let g = parity_group(bs.last());
        assert(e == e0 + g);
        assert forall|j: int| 0 <= j < bs.len() implies e.subrange(9 * j, 9 * j + 9)
            == parity_group(#[trigger] bs[j]) by {
            if j < bs.len() - 1 {
                assert(9 * j + 9 <= 9 * init.len()) by (nonlinear_arith)
                    requires
                        j < init.len(),
                ;
                assert(e.subrange(9 * j, 9 * j + 9) == e0.subrange(9 * j, 9 * j + 9));
                assert(init[j] == bs[j]);
            } else {
                assert(e.subrange(9 * j, 9 * j + 9) == g);
            }
        }
    }
}

/// Bytes sent with their parity bits and a correct trailing CRC decode to a
/// verified frame holding exactly the payload.
pub proof fn lemma_crc_round_trip(p: Seq<u8>)
    requires
        p.len() >= 1,
    ensures
        decode_bits(encode_bytes(with_crc(p))) == Ok::<FrameView, FrameError>(
            FrameView::Standard(p),
        ),
{
    let bs = with_crc(p);
    let bits = encode_bytes(bs);
    lemma_encode_groups(bs);
    let k = bs.len();
    assert(bits.len() / 9 == k) by (nonlinear_arith)
        requires
            bits.len() == 9 * k,
    ;
    assert(bits.len() % 9 == 0) by (nonlinear_arith)
        requires
            bits.len() == 9 * k,
    ;
    assert forall|j: int| 0 <= j < k implies #[trigger] group_data(bits, j) == byte_bits(bs[j])
        && bits[9 * j + 8] == parity_of(byte_bits(bs[j])) by {
        let g = bits.subrange(9 * j, 9 * j + 9);
        assert(g == parity_group(bs[j]));
        assert(group_data(bits, j) == g.take(8));
        assert(g.take(8) == byte_bits(bs[j]));
        assert(bits[9 * j + 8] == g[8]);
    }
    assert forall|j: int| 0 <= j < bits.len() / 9 implies #[trigger] group_parity_ok(bits, j) by {
        assert(group_data(bits, j) == byte_bits(bs[j]));
    }
    assert forall|j: int| 0 <= j < k implies #[trigger] group_bytes(bits)[j] == bs[j] by {
        assert(group_data(bits, j) == byte_bits(bs[j]));
        lemma_byte_bits(bs[j]);
    }
    assert(group_bytes(bits) == bs);
    assert(bs.take(k - 2) == p);
    let c = crc_a_of(p) as nat;
    assert(le_u16(bs[k - 2], bs[k - 1]) == c);
}

pub proof fn lemma_pack_bound(s: Seq<bool>)
    ensures
        pack_lsb(s) < weight(s.len()),
    decreases s.len(),
{
    if s.len() > 0 {
        lemma_pack_bound(s.drop_last());
    }
}

/// Reads `len` bits from `start`: their value, least significant first, and their parity.
fn read_group(data: &Bits, start: usize, len: usize) -> (r: (u8, bool))
    requires
        len <= 8,
        start + len <= data@.len(),
        data@.len() <= usize::MAX,
    ensures
        r.0 as nat == pack_lsb(data@.subrange(start as int, start + len)),
        r.1 == parity_of(data@.subrange(start as int, start + len)),
{
    let ghost s = data@.subrange(start as int, start + len);
    let mut value: u32 = 0;
    let mut w: u32 = 1;
    let mut parity = true;
    let mut i: usize = 0;
    while i < len
        invariant
            i <= len <= 8,
            start + len <= data@.len(),
            data@.len() <= usize::MAX,
            s == data@.subrange(start as int, start + len),
            w as nat == weight(i as nat),
            w <= 256,
            value as nat == pack_lsb(s.take(i as int)),
            value < w,
            parity == parity_of(s.take(i as int)),
        decreases len - i,
    {
        proof {
            lemma_pack_bound(s.take(i as int));
            assert(s.take(i + 1).drop_last() == s.take(i as int));
        }
        let b = data.get(start + i);
        if b {
            value = value + w;
            parity = !parity;
        }
        assert(weight((i + 1) as nat) == 2 * weight(i as nat));
        assert(i < 8 ==> w <= 128) by {
            if i < 8 {
                lemma_weight_le(i as nat);
            }
        }
        w = w * 2;
        i += 1;
    }
    assert(s.take(len as int) == s);
    (value as u8, parity)
}

proof fn lemma_weight_le(i: nat)
    requires
        i < 8,
    ensures
        weight(i) <= 128,
{
    reveal_with_fuel(weight, 8);
    assert(weight(7) == 128);
    lemma_weight_mono(i, 7);
}

proof fn lemma_weight_mono(i: nat, j: nat)
    requires
        i <= j,
    ensures
        weight(i) <= weight(j),
    decreases j,
{
    if i < j {
        lemma_weight_mono(i, (j - 1) as nat);
    }
}

impl CompleteCollector {
    /// Reads the bit sequence as a frame: fewer than 8 bits a short frame; 8 bits, or
    /// a count not a multiple of 9, raw bits; else bytes with parity, with the CRC
    /// checked when there are at least three.
    pub fn to_frame(&self) -> (r: Result<Frame, FrameError>)
        ensures
            frame_result_matches(self.data@, r),
    {
        let ghost bits = self.data@;
        let n = self.data.len();
        if n == 0 {
            return Err(FrameError::EmptyFrame);
        }
        if n < 8 {
            let (v, _) = read_group(&self.data, 0, n);
            assert(bits.subrange(0, n as int) == bits);
            return Ok(Frame::Short(v));
        }
        if n == 8 || n % 9 != 0 {
            return Ok(Frame::SddBits(self.data.copy()));
        }
        let k = n / 9;
        let mut out: Vec<u8> = Vec::new();
        let mut j: usize = 0;
        while j < k
            invariant
                bits == self.data@,
                n == bits.len(),
                n <= usize::MAX,
                n > 8,
                n % 9 == 0,
                k == n / 9,
                j <= k,
                out@ == group_bytes(bits).take(j as int),
                forall|jj: int| 0 <= jj < j ==> #[trigger] group_parity_ok(bits, jj),
            decreases k - j,
        {
            assert(9 * j + 9 <= n) by (nonlinear_arith)
                requires
                    j < k,
                    k == n / 9,
            ;
            let start = 9 * j;
            let (byte, parity) = read_group(&self.data, start, 8);
            if parity != self.data.get(start + 8) {
                assert(!group_parity_ok(bits, j as int));
                assert(!all_parity_ok(bits));
                return Err(FrameError::ParityBit);
            }
            out.push(byte);
            assert(out@ == group_bytes(bits).take(j + 1));
            j += 1;
        }
        assert(out@ == group_bytes(bits));
        assert(all_parity_ok(bits));
        if k < 3 {
            return Ok(Frame::SddCleanCut(out));
        }
        let crc = out[k - 2] as u16 + (out[k - 1] as u16) * 256;
        let mut payload: Vec<u8> = Vec::new();
        let mut i: usize = 0;
        while i < k - 2
            invariant
                k == out@.len(),
                k >= 3,
                i <= k - 2,
                payload@ == out@.take(i as int),
            decreases k - 2 - i,
        {
            payload.push(out[i]);
            assert(payload@ == out@.take(i + 1));
            i += 1;
        }
        if crc_a(payload.as_slice()) == crc {
            Ok(Frame::Standard(payload))
        } else {
            Ok(Frame::SddCleanCut(out))
        }
    }
}

} // verus!
