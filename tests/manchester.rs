use iso14443_decode::bits::Bits;
use iso14443_decode::error::{FrameError, ManchesterError};
use iso14443_decode::frame::{CompleteCollector, Frame};
use iso14443_decode::manchester::{ManchesterCollector, ManchesterElement, ManchesterElementSet};
use iso14443_decode::time_record_both_ways::{EntryTimesBoth, SetTimesBoth};

fn bits(v: &[u8]) -> Bits {
    let b: Vec<bool> = v.iter().map(|x| *x == 1).collect();
    Bits::from_bools(&b)
}

#[test]
fn manchester_collector_01() {
    let mut collector = ManchesterCollector::Empty;
    assert!(collector.add_element(&ManchesterElement::E).is_err());
    assert!(collector.add_element(&ManchesterElement::F).is_err());
    collector.add_element(&ManchesterElement::D).unwrap();
    assert_eq!(collector, ManchesterCollector::InProgress(bits(&[])));
}

#[test]
fn manchester_collector_02() {
    let mut collector = ManchesterCollector::InProgress(bits(&[]));
    collector.add_element(&ManchesterElement::D).unwrap();
    assert_eq!(collector, ManchesterCollector::InProgress(bits(&[1])));
}

#[test]
fn manchester_collector_03() {
    let mut collector = ManchesterCollector::InProgress(bits(&[]));
    collector.add_element(&ManchesterElement::E).unwrap();
    assert_eq!(collector, ManchesterCollector::InProgress(bits(&[0])));
}

#[test]
fn manchester_collector_04() {
    let mut collector = ManchesterCollector::InProgress(bits(&[]));
    collector.add_element(&ManchesterElement::F).unwrap();
    assert_eq!(
        collector,
        ManchesterCollector::Complete(CompleteCollector { data: bits(&[]) })
    );
}

#[test]
fn manchester_collector_05() {
    let mut collector = ManchesterCollector::InProgress(bits(&[0]));
    collector.add_element(&ManchesterElement::D).unwrap();
    assert_eq!(collector, ManchesterCollector::InProgress(bits(&[0, 1])));
}

#[test]
fn manchester_collector_06() {
    let mut collector = ManchesterCollector::InProgress(bits(&[0]));
    collector.add_element(&ManchesterElement::E).unwrap();
    assert_eq!(collector, ManchesterCollector::InProgress(bits(&[0, 0])));
}

#[test]
fn manchester_collector_07() {
    let mut collector = ManchesterCollector::InProgress(bits(&[0]));
    collector.add_element(&ManchesterElement::F).unwrap();
    assert_eq!(
        collector,
        ManchesterCollector::Complete(CompleteCollector { data: bits(&[0]) })
    );
}

#[test]
fn manchester_collector_08() {
    let mut collector = ManchesterCollector::InProgress(bits(&[1]));
    collector.add_element(&ManchesterElement::D).unwrap();
    assert_eq!(collector, ManchesterCollector::InProgress(bits(&[1, 1])));
}

#[test]
fn manchester_collector_09() {
    let mut collector = ManchesterCollector::InProgress(bits(&[1]));
    collector.add_element(&ManchesterElement::E).unwrap();
    assert_eq!(collector, ManchesterCollector::InProgress(bits(&[1, 0])));
}

#[test]
fn manchester_collector_10() {
    let mut collector = ManchesterCollector::InProgress(bits(&[1]));
    collector.add_element(&ManchesterElement::F).unwrap();
    assert_eq!(
        collector,
        ManchesterCollector::Complete(CompleteCollector { data: bits(&[1]) })
    );
}

#[test]
fn manchester_sequence_1() {
    let sequence = [
        ManchesterElement::D,
        ManchesterElement::D,
        ManchesterElement::E,
        ManchesterElement::E,
        ManchesterElement::D,
        ManchesterElement::F,
    ];
    let mut collector = ManchesterCollector::Empty;
    for element in sequence {
        collector.add_element(&element).unwrap();
    }
    assert_eq!(
        collector,
        ManchesterCollector::Complete(CompleteCollector {
            data: bits(&[1, 0, 0, 1])
        })
    );
}

#[test]
fn manchester_sequence_2() {
    let sequence = [
        ManchesterElement::D,
        ManchesterElement::D,
        ManchesterElement::E,
        ManchesterElement::F,
    ];
    let mut collector = ManchesterCollector::Empty;
    for element in sequence {
        collector.add_element(&element).unwrap();
    }
    assert_eq!(
        collector,
        ManchesterCollector::Complete(CompleteCollector {
            data: bits(&[1, 0])
        })
    );
}

#[test]
fn manchester_time_both_1() {
    let times_set = [
        1740, 97, 82, 97, 80, 176, 94, 96, 82, 98, 167, 180, 179, 102, 81, 97, 81, 98, 81, 97, 81,
        98, 81, 176, 178, 102, 82, 175, 179, 181, 178, 102, 80, 177, 93, 98, 80, 98, 167, 101, 82,
        97, 82, 256, 28703,
    ];
    let chunk = &SetTimesBoth::<22>::from_raw(&times_set)[0];
    let manchester_element_set = chunk.convert_to_manchester().unwrap();
    let frame = manchester_element_set.collect_frame().unwrap();
    assert_eq!(frame, Frame::Standard(vec![0xA3]));
}

#[test]
fn manchester_worked_sequence_is_short_nine() {
    let sequence = [
        ManchesterElement::D,
        ManchesterElement::D,
        ManchesterElement::E,
        ManchesterElement::E,
        ManchesterElement::D,
        ManchesterElement::F,
    ];
    let mut collector = ManchesterCollector::Empty;
    for element in sequence {
        collector.add_element(&element).unwrap();
    }
    match collector {
        ManchesterCollector::Complete(c) => {
            assert_eq!(c.data.to_bools(), vec![true, false, false, true]);
            assert_eq!(c.to_frame(), Ok(Frame::Short(0x09)));
        }
        other => panic!("not complete: {:?}", other),
    }
}

#[test]
fn manchester_complete_takes_nothing_more() {
    let mut collector = ManchesterCollector::Complete(CompleteCollector { data: bits(&[1]) });
    assert_eq!(
        collector.add_element(&ManchesterElement::D),
        Err(ManchesterError::NoAddingToComplete)
    );
    let mut empty = ManchesterCollector::Empty;
    assert_eq!(
        empty.add_element(&ManchesterElement::E),
        Err(ManchesterError::FirstNotD)
    );
}

fn set(entries: &[(u16, Option<u16>)]) -> SetTimesBoth<22> {
    SetTimesBoth::<22>::from_entries(
        entries
            .iter()
            .map(|(a, b)| EntryTimesBoth {
                first_len: *a,
                second_len: *b,
            })
            .collect(),
    )
}

#[test]
fn manchester_interval_windows() {
    // start: D; 88 is 4 ticks (nothing), 88 even after D gives D; 264 is 12 ticks: F
    let s = ManchesterElementSet::from_times_both(set(&[(88, Some(88)), (264, None)])).unwrap();
    assert_eq!(
        s.elements(),
        &[ManchesterElement::D, ManchesterElement::D, ManchesterElement::F]
    );
    assert_eq!(s.collect_frame(), Ok(Frame::Short(0x01)));
    // 176 is 8 ticks: E after D; then 88 keeps E; then 176 after E: F
    let s = ManchesterElementSet::from_times_both(set(&[(176, Some(88)), (176, None)])).unwrap();
    assert_eq!(
        s.elements(),
        &[ManchesterElement::D, ManchesterElement::E, ManchesterElement::F]
    );
    assert_eq!(s.collect_frame(), Ok(Frame::Short(0x00)));
}

#[test]
fn manchester_interval_errors() {
    assert_eq!(
        ManchesterElementSet::from_times_both(set(&[(130, None)])),
        Err(ManchesterError::UnexpectedOddInterval(130))
    );
    assert_eq!(
        ManchesterElementSet::from_times_both(set(&[(88, Some(176))])),
        Err(ManchesterError::UnexpectedEvenInterval(176))
    );
    assert_eq!(
        ManchesterElementSet::from_times_both(set(&[(264, None), (88, None)])),
        Err(ManchesterError::NoAddingToComplete)
    );
    let s = ManchesterElementSet::from_times_both(set(&[(88, Some(88))])).unwrap();
    assert_eq!(s.collect_frame(), Err(ManchesterError::IncompleteFrame));
    let s = ManchesterElementSet::from_times_both(set(&[(264, None)])).unwrap();
    assert_eq!(
        s.collect_frame(),
        Err(ManchesterError::Frame(FrameError::EmptyFrame))
    );
}
