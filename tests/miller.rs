use iso14443_decode::bits::Bits;
use iso14443_decode::error::{FrameError, MillerError};
use iso14443_decode::frame::{CompleteCollector, Frame};
use iso14443_decode::miller::{MillerCollector, MillerElement, MillerElementSet, MillerTimesDown};
use iso14443_decode::time_record_both_ways::{EntryTimesBoth, SetTimesBoth};

fn bits(v: &[u8]) -> Bits {
    let b: Vec<bool> = v.iter().map(|x| *x == 1).collect();
    Bits::from_bools(&b)
}

#[test]
fn miller_collector_01() {
    let mut collector = MillerCollector::Empty;
    assert!(collector.add_element(&MillerElement::X).is_err());
    assert!(collector.add_element(&MillerElement::Y).is_err());
    collector.add_element(&MillerElement::Z).unwrap();
    assert_eq!(collector, MillerCollector::InProgress(bits(&[])));
}

#[test]
fn miller_collector_02() {
    let mut collector = MillerCollector::InProgress(bits(&[]));
    collector.add_element(&MillerElement::X).unwrap();
    assert_eq!(collector, MillerCollector::InProgress(bits(&[1])));
}

#[test]
fn miller_collector_03() {
    let mut collector = MillerCollector::InProgress(bits(&[]));
    assert!(collector.add_element(&MillerElement::Y).is_err());
}

#[test]
fn miller_collector_04() {
    let mut collector = MillerCollector::InProgress(bits(&[]));
    collector.add_element(&MillerElement::Z).unwrap();
    assert_eq!(collector, MillerCollector::InProgress(bits(&[0])));
}

#[test]
fn miller_collector_05() {
    let mut collector = MillerCollector::InProgress(bits(&[0]));
    collector.add_element(&MillerElement::X).unwrap();
    assert_eq!(collector, MillerCollector::InProgress(bits(&[0, 1])));
}

#[test]
fn miller_collector_06() {
    let mut collector = MillerCollector::InProgress(bits(&[0]));
    collector.add_element(&MillerElement::Y).unwrap();
    assert_eq!(
        collector,
        MillerCollector::Complete(CompleteCollector { data: bits(&[]) })
    );
}

#[test]
fn miller_collector_07() {
    let mut collector = MillerCollector::InProgress(bits(&[0]));
    collector.add_element(&MillerElement::Z).unwrap();
    assert_eq!(collector, MillerCollector::InProgress(bits(&[0, 0])));
}

#[test]
fn miller_collector_08() {
    let mut collector = MillerCollector::InProgress(bits(&[1]));
    collector.add_element(&MillerElement::X).unwrap();
    assert_eq!(collector, MillerCollector::InProgress(bits(&[1, 1])));
}

#[test]
fn miller_collector_09() {
    let mut collector = MillerCollector::InProgress(bits(&[1]));
    collector.add_element(&MillerElement::Y).unwrap();
    assert_eq!(collector, MillerCollector::InProgress(bits(&[1, 0])));
}

#[test]
fn miller_collector_10() {
    let mut collector = MillerCollector::InProgress(bits(&[1]));
    assert!(collector.add_element(&MillerElement::Z).is_err());
}

#[test]
fn miller_sequence_1() {
    let sequence = [
        MillerElement::Z,
        MillerElement::X,
        MillerElement::Y,
        MillerElement::Z,
        MillerElement::X,
        MillerElement::Y,
        MillerElement::Y,
    ];
    let mut collector = MillerCollector::Empty;
    for element in sequence {
        collector.add_element(&element).unwrap();
    }
    assert_eq!(
        collector,
        MillerCollector::Complete(CompleteCollector {
            data: bits(&[1, 0, 0, 1])
        })
    );
}

#[test]
fn miller_sequence_2() {
    let sequence = [
        MillerElement::Z,
        MillerElement::X,
        MillerElement::Y,
        MillerElement::Z,
        MillerElement::Y,
    ];
    let mut collector = MillerCollector::Empty;
    for element in sequence {
        collector.add_element(&element).unwrap();
    }
    assert_eq!(
        collector,
        MillerCollector::Complete(CompleteCollector {
            data: bits(&[1, 0])
        })
    );
}

#[test]
fn miller_time_both_1() {
    let times_set = [
        25001, 82, 101, 75, 191, 80, 102, 75, 191, 79, 189, 80, 189, 80, 1734,
    ];
    let chunk = &SetTimesBoth::<22>::from_raw(&times_set)[0];
    let miller_element_set = chunk.convert_to_miller().unwrap();
    let frame = miller_element_set.collect_frame().unwrap();
    assert_eq!(frame, Frame::Short(0x26));
}

#[test]
fn miller_time_both_2() {
    let times_set = [
        58364, 72, 110, 68, 198, 71, 198, 71, 198, 71, 109, 68, 289, 71, 110, 68, 111, 68, 110, 68,
        111, 68, 198, 71, 198, 71, 109, 69, 198, 71, 198, 71, 110, 68, 110, 68, 199, 71, 110, 68,
        199, 70, 110, 68, 199, 71, 1737,
    ];
    let chunk = &SetTimesBoth::<22>::from_raw(&times_set)[0];
    let miller_element_set = chunk.convert_to_miller().unwrap();
    let frame = miller_element_set.collect_frame().unwrap();
    assert_eq!(frame, Frame::Standard(vec![0xB2]));
}

#[test]
fn miller_complete_takes_nothing_more() {
    let mut collector = MillerCollector::Complete(CompleteCollector { data: bits(&[1]) });
    assert_eq!(
        collector.add_element(&MillerElement::Z),
        Err(MillerError::WrongMillerSequence)
    );
}

#[test]
fn times_down_split_keeps_empty_pieces() {
    let pieces = MillerTimesDown::<22>::from_raw(&[500, 176, 410, 420, 264]);
    assert_eq!(pieces.len(), 3);
    assert_eq!(pieces[0].intervals(), &[] as &[u16]);
    assert_eq!(pieces[1].intervals(), &[176, 410]);
    assert_eq!(pieces[2].intervals(), &[264]);
}

#[test]
fn times_down_classification() {
    // after the implied Z: 176 is 8 ticks (Z), 264 is 12 ticks (X),
    // 352 after X is 16 ticks (Y, X), 264 after X is 12 ticks (Y, Z)
    let t = MillerTimesDown::<22>::from_intervals(vec![176, 264, 352, 264]);
    let s = MillerElementSet::from_times_down(t).unwrap();
    assert_eq!(
        s.elements(),
        &[
            MillerElement::Z,
            MillerElement::Z,
            MillerElement::X,
            MillerElement::Y,
            MillerElement::X,
            MillerElement::Y,
            MillerElement::Z
        ]
    );
    let t = MillerTimesDown::<22>::from_intervals(vec![176, 300]);
    assert_eq!(t.convert(), Err(MillerError::UnexpectedInterval(300)));
}

fn set(entries: &[(u16, Option<u16>)]) -> SetTimesBoth<22> {
    SetTimesBoth::<22>::from_entries(
        entries
            .iter()
            .map(|(a, b)| EntryTimesBoth {
                first_len: *a,
                second_len: *b,
            })
            .collect(),
    )
}

#[test]
fn paired_miller_errors() {
    assert_eq!(
        MillerElementSet::from_times_both(set(&[(40, Some(100))])),
        Err(MillerError::UnexpectedMillerOffInterval(40))
    );
    assert_eq!(
        MillerElementSet::from_times_both(set(&[(80, None), (80, None)])),
        Err(MillerError::WrongMillerSequence)
    );
    // 80 + 60 = 140 is no window
    assert_eq!(
        MillerElementSet::from_times_both(set(&[(80, Some(60))])),
        Err(MillerError::UnexpectedInterval(140))
    );
    // Z, Z: the stream never ends
    let s = MillerElementSet::from_times_both(set(&[(80, Some(96))])).unwrap();
    assert_eq!(s.collect_frame(), Err(MillerError::IncompleteFrame));
    // Z, Y: nothing to end
    let s = MillerElementSet::from_times_both(set(&[(80, None)])).unwrap();
    assert_eq!(s.collect_frame(), Err(MillerError::WrongMillerSequence));
    // Z, Z, Y: an empty frame
    let s = MillerElementSet::from_times_both(set(&[(80, Some(96)), (80, None)])).unwrap();
    assert_eq!(
        s.collect_frame(),
        Err(MillerError::Frame(FrameError::EmptyFrame))
    );
}

#[test]
fn paired_split_drops_empty_pieces_and_pairs() {
    let sets = SetTimesBoth::<22>::from_raw(&[1000, 80, 100, 80, 2000, 3000, 70, 2000]);
    assert_eq!(sets.len(), 2);
    assert_eq!(
        sets[0].entries(),
        &[
            EntryTimesBoth {
                first_len: 80,
                second_len: Some(100)
            },
            EntryTimesBoth {
                first_len: 80,
                second_len: None
            }
        ]
    );
    assert_eq!(
        sets[1].entries(),
        &[EntryTimesBoth {
            first_len: 70,
            second_len: None
        }]
    );
}

#[test]
fn paired_sum_is_classified_uncapped() {
    // 15000 + 60000 = 75000 lies beyond every window at a tick length of 4000;
    // the reported interval is held at u16::MAX
    let entries = vec![EntryTimesBoth {
        first_len: 15000,
        second_len: Some(60000),
    }];
    let s = SetTimesBoth::<4000>::from_entries(entries);
    assert_eq!(
        s.convert_to_miller(),
        Err(MillerError::UnexpectedInterval(65535))
    );
}
