use iso14443_decode::bits::Bits;
use iso14443_decode::error::FrameError;
use iso14443_decode::dialog_interpreter::{all_req, sens_req, spl_req};
use iso14443_decode::frame::{CompleteCollector, Frame, FrameAttributed};
use iso14443_decode::manchester::ManchesterElementSet;
use iso14443_decode::miller::MillerElementSet;

fn bits(v: &[u8]) -> Bits {
    let b: Vec<bool> = v.iter().map(|x| *x == 1).collect();
    Bits::from_bools(&b)
}

#[test]
fn wrap_collector_1() {
    let complete_collector = CompleteCollector {
        data: bits(&[0, 1, 1, 0, 0, 1, 0]),
    };
    let frame = complete_collector.to_frame().unwrap();
    assert_eq!(frame, Frame::Short(0x26));
}

#[test]
fn wrap_collector_2() {
    let complete_collector = CompleteCollector {
        data: bits(&[0, 1, 0, 0, 1, 0, 1]),
    };
    let frame = complete_collector.to_frame().unwrap();
    assert_eq!(frame, Frame::Short(0x52));
}

#[test]
fn wrap_collector_3() {
    let complete_collector = CompleteCollector {
        data: bits(&[0, 0, 0, 0, 1, 0, 1, 0, 1]),
    };
    let frame = complete_collector.to_frame().unwrap();
    assert_eq!(frame, Frame::SddCleanCut(vec![0x50]));
}

#[test]
fn wrap_collector_4() {
    let complete_collector = CompleteCollector {
        data: bits(&[
            0, 0, 0, 0, 1, 0, 1, 0, 1, 0, 0, 0, 0, 0, 0, 0, 0, 1, 1, 1, 1, 0, 1, 0, 1, 0, 0, 1, 0,
            1, 1, 0, 0, 1, 1, 0,
        ]),
    };
    let frame = complete_collector.to_frame().unwrap();
    assert_eq!(frame, Frame::Standard(vec![0x50, 0x00]));
}

#[test]
fn empty_bits_are_no_frame() {
    let c = CompleteCollector { data: bits(&[]) };
    assert_eq!(c.to_frame(), Err(FrameError::EmptyFrame));
}

#[test]
fn single_bit_is_short() {
    let c = CompleteCollector { data: bits(&[1]) };
    assert_eq!(c.to_frame(), Ok(Frame::Short(0x01)));
}

#[test]
fn eight_bits_are_a_bit_fragment() {
    let raw = [1, 0, 1, 1, 0, 0, 1, 0];
    let c = CompleteCollector { data: bits(&raw) };
    assert_eq!(c.to_frame(), Ok(Frame::SddBits(bits(&raw))));
}

#[test]
fn ten_bits_are_a_bit_fragment() {
    let raw = [1, 0, 1, 1, 0, 0, 1, 0, 1, 1];
    let c = CompleteCollector { data: bits(&raw) };
    let frame = c.to_frame().unwrap();
    match frame {
        Frame::SddBits(b) => assert_eq!(
            b.to_bools(),
            raw.iter().map(|x| *x == 1).collect::<Vec<bool>>()
        ),
        other => panic!("unexpected frame {:?}", other),
    }
}

#[test]
fn wrong_parity_in_any_group_fails() {
    // 0x50 with its parity bit flipped, then a correct 0x00 group
    let c = CompleteCollector {
        data: bits(&[0, 0, 0, 0, 1, 0, 1, 0, 0, 0, 0, 0, 0, 0, 0, 0, 0, 1]),
    };
    assert_eq!(c.to_frame(), Err(FrameError::ParityBit));
    // a correct 0x50, then 0x00 with its parity bit cleared
    let c = CompleteCollector {
        data: bits(&[0, 0, 0, 0, 1, 0, 1, 0, 1, 0, 0, 0, 0, 0, 0, 0, 0, 0]),
    };
    assert_eq!(c.to_frame(), Err(FrameError::ParityBit));
}

#[test]
fn two_bytes_are_a_clean_cut() {
    let c = CompleteCollector {
        data: bits(&[0, 0, 0, 0, 1, 0, 1, 0, 1, 0, 0, 0, 0, 0, 0, 0, 0, 1]),
    };
    assert_eq!(c.to_frame(), Ok(Frame::SddCleanCut(vec![0x50, 0x00])));
}

#[test]
fn crc_mismatch_keeps_all_bytes() {
    // as in the verified frame above, with the last CRC byte 0xCD changed to 0xCC
    let c = CompleteCollector {
        data: bits(&[
            0, 0, 0, 0, 1, 0, 1, 0, 1, // 0x50
            0, 0, 0, 0, 0, 0, 0, 0, 1, // 0x00
            1, 1, 1, 0, 1, 0, 1, 0, 0, // 0x57
            0, 0, 1, 1, 0, 0, 1, 1, 1, // 0xCC
        ]),
    };
    assert_eq!(
        c.to_frame(),
        Ok(Frame::SddCleanCut(vec![0x50, 0x00, 0x57, 0xCC]))
    );
}

fn encode_with_parity(bytes: &[u8]) -> Vec<bool> {
    let mut out = Vec::new();
    for b in bytes {
        let mut parity = true;
        for i in 0..8 {
            let bit = (b >> i) & 1 == 1;
            if bit {
                parity = !parity;
            }
            out.push(bit);
        }
        out.push(parity);
    }
    out
}

#[test]
fn parity_and_crc_round_trip() {
    let crc = crc::Crc::<u16>::new(&crc::CRC_16_ISO_IEC_14443_3_A);
    for payload in [vec![0x93u8, 0x20, 0xAB], vec![0xA3], vec![0x00, 0xFF, 0x12, 0x34]] {
        let c = crc.checksum(&payload);
        let mut bytes = payload.clone();
        bytes.push((c & 0xFF) as u8);
        bytes.push((c >> 8) as u8);
        let collector = CompleteCollector {
            data: Bits::from_bools(&encode_with_parity(&bytes)),
        };
        assert_eq!(collector.to_frame(), Ok(Frame::Standard(payload)));
    }
}

#[test]
fn short_frames_pack_least_significant_first() {
    let c = CompleteCollector { data: bits(&[1, 1, 0]) };
    assert_eq!(c.to_frame(), Ok(Frame::Short(0x03)));
    let c = CompleteCollector {
        data: bits(&[1, 1, 1, 1, 1, 1, 1]),
    };
    assert_eq!(c.to_frame(), Ok(Frame::Short(0x7F)));
}

#[test]
fn dialog_constants() {
    assert_eq!(all_req(), FrameAttributed::Miller(Frame::Short(0x52)));
    assert_eq!(sens_req(), FrameAttributed::Miller(Frame::Short(0x26)));
    assert_eq!(spl_req(), vec![0x50, 0x00]);
}

#[test]
fn element_sets_default_to_empty() {
    assert!(ManchesterElementSet::default().elements().is_empty());
    assert!(MillerElementSet::default().elements().is_empty());
    assert!(iso14443_decode::miller_reworked::MillerElementSet::default()
        .element_set
        .is_empty());
}
