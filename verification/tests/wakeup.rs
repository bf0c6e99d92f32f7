use mole::snapshot::{ProcessDataSnapshot, ThreadDataSnapshot};
use mole::wakeup::{
    classify_wakeups, print_2tables, print_top_events, print_wakeups, tgidpid_pid, tgidpid_tgid,
    CountMap, WakeupEdge,
};

fn count(m: &CountMap, pid: i32) -> u64 {
    m.entries.iter().find(|e| e.0 == pid).map(|e| e.1).unwrap_or(0)
}

fn thread(pid: i32, name: &str) -> ThreadDataSnapshot {
    ThreadDataSnapshot {
        pid,
        comm: name.to_string(),
        utime: 0,
        stime: 0,
        vctxsw: 0,
        ivctxsw: 0,
        on_cpu: 0,
        waiting_for_cpu: 0,
        slices: 0,
    }
}

#[test]
fn packed_identifier_halves() {
    let id = (100u64 << 32) | 7;
    assert_eq!(tgidpid_tgid(id), 100);
    assert_eq!(tgidpid_pid(id), 7);
}

#[test]
fn wakeup_classification_partitions() {
    let edges = vec![
        WakeupEdge { src: (100u64 << 32) | 1, tgt: (100u64 << 32) | 2, count: 5 },
        WakeupEdge { src: (200u64 << 32) | 9, tgt: (100u64 << 32) | 2, count: 3 },
        WakeupEdge { src: (100u64 << 32) | 1, tgt: (300u64 << 32) | 4, count: 7 },
    ];
    let r = classify_wakeups(&edges, 100);
    assert_eq!(count(&r.wakers, 1), 5);
    assert_eq!(count(&r.wakees, 2), 5);
    assert_eq!(count(&r.inputs, 2), 3);
    assert_eq!(count(&r.outputs, 1), 7);
    assert_eq!(r.inputs.entries.len(), 1);
    assert_eq!(r.outputs.entries.len(), 1);
    assert_eq!(r.wakers.entries.len(), 1);
    assert_eq!(r.wakees.entries.len(), 1);
}

#[test]
fn classification_accumulates_repeated_pairs() {
    let edges = vec![
        WakeupEdge { src: (9u64 << 32) | 1, tgt: (5u64 << 32) | 2, count: 3 },
        WakeupEdge { src: (9u64 << 32) | 8, tgt: (5u64 << 32) | 2, count: 4 },
    ];
    let r = classify_wakeups(&edges, 5);
    assert_eq!(count(&r.inputs, 2), 7);
    assert_eq!(r.inputs.entries.len(), 1);
    assert_eq!(r.outputs.entries.len(), 0);
}

#[test]
fn count_map_bumps_in_place() {
    let mut m = CountMap::new();
    m.bump(4, 2);
    m.bump(9, 1);
    m.bump(4, 3);
    assert_eq!(m.entries, vec![(4, 5), (9, 1)]);
}

#[test]
fn top_events_ranks_by_count_with_sentinel_names() {
    let mut m = CountMap::new();
    m.bump(1, 10);
    m.bump(2, 30);
    let curr = ProcessDataSnapshot { pid: 5, threads: vec![thread(1, "known")] };
    let out = print_top_events(&m, &curr);
    let lines: Vec<&str> = out.lines().collect();
    assert_eq!(lines[0], "pid      comm             wakeups    ");
    assert_eq!(lines[1], "------------------------------------");
    // rendered ascending by count
    assert_eq!(lines[2], "1        known            10         ");
    assert_eq!(lines[3], "2        unknown          30         ");
}

#[test]
fn two_tables_layout_pairs_lines_and_centers() {
    let out = print_2tables("A", "x\ny\n", "B", "z\n");
    assert_eq!(out, "A  B\nx  z\ny   \n\n");
}

#[test]
fn wakeups_report_shows_all_four_tables() {
    let edges = vec![
        WakeupEdge { src: (100u64 << 32) | 1, tgt: (100u64 << 32) | 2, count: 5 },
        WakeupEdge { src: (200u64 << 32) | 9, tgt: (100u64 << 32) | 2, count: 3 },
    ];
    let curr = ProcessDataSnapshot { pid: 100, threads: vec![thread(1, "a"), thread(2, "b")] };
    let out = print_wakeups(&edges, &curr);
    assert!(out.contains("top inputs"));
    assert!(out.contains("top outputs"));
    assert!(out.contains("top wakees"));
    assert!(out.contains("top wakers"));
    assert!(out.contains("b"));
}

#[test]
fn two_tables_layout_with_a_short_first_table() {
    // one line on the left: no separator line, so the layout width is zero
    let out = print_2tables("A", "x\n", "B", "z\n");
    assert_eq!(out, "A  B\nx  z\n\n");
}
