use mole::slice::{print_slices, summarize_slices};
use mole::snapshot::{ProcessDataSnapshot, ThreadDataSnapshot};

fn thread(pid: i32, name: &str) -> ThreadDataSnapshot {
    ThreadDataSnapshot {
        pid,
        comm: name.to_string(),
        utime: 0,
        stime: 0,
        vctxsw: 0,
        ivctxsw: 0,
        on_cpu: 0,
        waiting_for_cpu: 0,
        slices: 0,
    }
}

#[test]
fn percentiles_of_ten_samples() {
    let st = summarize_slices(&vec![5, 1, 9, 3, 7, 2, 8, 4, 6, 0]).unwrap();
    assert_eq!(st.min, 0);
    assert_eq!(st.p5, 0);
    assert_eq!(st.p25, 2);
    assert_eq!(st.p50, 5);
    assert_eq!(st.p75, 7);
    assert_eq!(st.p95, 9);
    assert_eq!(st.max, 9);
}

#[test]
fn percentiles_of_one_sample_coincide() {
    let st = summarize_slices(&vec![42]).unwrap();
    assert_eq!(st.min, 42);
    assert_eq!(st.p5, 42);
    assert_eq!(st.p50, 42);
    assert_eq!(st.max, 42);
}

#[test]
fn empty_sample_list_has_no_summary() {
    assert!(summarize_slices(&vec![]).is_none());
}

#[test]
fn slice_report_skips_empty_lists_and_resolves_names() {
    let curr = ProcessDataSnapshot { pid: 9, threads: vec![thread(1, "worker")] };
    let slices = vec![(1, vec![4, 2, 6]), (2, vec![]), (3, vec![5])];
    let out = print_slices(&slices, &curr);
    let lines: Vec<&str> = out.lines().collect();
    assert_eq!(
        lines[0],
        "pid      comm             slices     min    p5     p25    p50    p75    p95    max    "
    );
    // thread 2 has no samples and is skipped; rows ascend by sample
    // count, and a blank line closes the report
    assert_eq!(lines.len(), 5);
    assert_eq!(lines[4], "");
    assert!(lines[2].starts_with("3        unknown          1          5"));
    assert!(lines[3].starts_with("1        worker           3          2"));
}

#[test]
fn percentiles_of_two_samples() {
    let st = summarize_slices(&vec![9, 4]).unwrap();
    assert_eq!(st.min, 4);
    assert_eq!(st.p5, 4);
    assert_eq!(st.p25, 4);
    assert_eq!(st.p50, 9);
    assert_eq!(st.p75, 9);
    assert_eq!(st.p95, 9);
    assert_eq!(st.max, 9);
}
