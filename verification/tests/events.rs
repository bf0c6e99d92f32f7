use mole::events::{decode_event, handle_event, Event, Slices, Wakeups};

fn record(src: u64, tgt: u64, kind: u32) -> Vec<u8> {
    let mut v = src.to_le_bytes().to_vec();
    v.extend_from_slice(&tgt.to_le_bytes());
    v.extend_from_slice(&kind.to_le_bytes());
    v
}

#[test]
fn decode_wakeup_record() {
    let data = record((7u64 << 32) | 3, (7u64 << 32) | 4, 0);
    match decode_event(&data) {
        Some(Event::Wakeup { src, tgt }) => {
            assert_eq!(src, (7u64 << 32) | 3);
            assert_eq!(tgt, (7u64 << 32) | 4);
        },
        _ => panic!("expected a wakeup record"),
    }
}

#[test]
fn decode_run_slice_record_takes_low_half_as_thread() {
    let data = record((7u64 << 32) | 3, 123456, 1);
    match decode_event(&data) {
        Some(Event::RunSlice { pid, duration }) => {
            assert_eq!(pid, 3);
            assert_eq!(duration, 123456);
        },
        _ => panic!("expected a run-slice record"),
    }
}

#[test]
fn short_or_unknown_records_are_dropped() {
    assert!(decode_event(&[1, 2, 3]).is_none());
    assert!(decode_event(&record(1, 2, 9)).is_none());
}

#[test]
fn wakeup_records_accumulate_per_edge() {
    let mut w = Wakeups::new();
    let mut s = Slices::new();
    handle_event(&mut w, &mut s, &record(10, 20, 0));
    handle_event(&mut w, &mut s, &record(10, 20, 0));
    handle_event(&mut w, &mut s, &record(10, 21, 0));
    assert_eq!(w.edges.len(), 2);
    assert_eq!(w.edges[0].src, 10);
    assert_eq!(w.edges[0].tgt, 20);
    assert_eq!(w.edges[0].count, 2);
    assert_eq!(w.edges[1].count, 1);
    assert_eq!(s.entries.len(), 0);
}

#[test]
fn run_slice_records_grow_per_thread_lists() {
    let mut w = Wakeups::new();
    let mut s = Slices::new();
    handle_event(&mut w, &mut s, &record(5, 100, 1));
    handle_event(&mut w, &mut s, &record(5, 200, 1));
    handle_event(&mut w, &mut s, &record(6, 300, 1));
    assert_eq!(s.entries.len(), 2);
    assert_eq!(s.entries[0], (5, vec![100, 200]));
    assert_eq!(s.entries[1], (6, vec![300]));
    assert_eq!(w.edges.len(), 0);
}

#[test]
fn nineteen_bytes_are_one_short_of_a_record() {
    let data = record(1, 2, 0);
    assert!(decode_event(&data[..19]).is_none());
    assert!(decode_event(&data).is_some());
}
