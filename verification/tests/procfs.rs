use mole::procfs::{read_proc_schedstat, read_proc_stat, read_proc_status, read_stat, read_thread_stat};

#[test]
fn stat_first_line_parses_ten_categories() {
    let raw = "cpu  1 2 3 4 5 6 7 8 9 10\ncpu0 9 9 9 9 9 9 9 9 9 9\n";
    let d = read_stat(raw).unwrap();
    assert_eq!(d.user, 1);
    assert_eq!(d.nice, 2);
    assert_eq!(d.system, 3);
    assert_eq!(d.idle, 4);
    assert_eq!(d.iowait, 5);
    assert_eq!(d.irq, 6);
    assert_eq!(d.softirq, 7);
    assert_eq!(d.steal, 8);
    assert_eq!(d.guest, 9);
    assert_eq!(d.guest_nice, 10);
}

#[test]
fn stat_rejects_empty_or_short_text() {
    assert!(read_stat("").is_none());
    assert!(read_stat("cpu 1 2 3\n").is_none());
    assert!(read_stat("cpu a b c d e f g h i j\n").is_none());
}

#[test]
fn proc_stat_reads_utime_and_stime_fields() {
    let raw = "17 (worker) S 1 17 17 0 -1 4194560 111 0 0 0 777 888 0 0 20\n";
    let d = read_proc_stat(raw).unwrap();
    assert_eq!(d.utime, 777);
    assert_eq!(d.stime, 888);
    let t = read_thread_stat(raw).unwrap();
    assert_eq!(t.utime, 777);
    assert_eq!(t.stime, 888);
}

#[test]
fn proc_stat_rejects_short_text() {
    assert!(read_proc_stat("17 (worker) S 1").is_none());
}

#[test]
fn proc_status_reads_name_and_switch_counts() {
    let raw = "Name:\tworker\nState:\tS (sleeping)\nvoluntary_ctxt_switches:\t12\nnonvoluntary_ctxt_switches:\t7\n";
    let d = read_proc_status(raw).unwrap();
    assert_eq!(d.name, "worker");
    assert_eq!(d.vctxsw, 12);
    assert_eq!(d.ivctxsw, 7);
}

#[test]
fn proc_status_later_lines_win() {
    let raw = "Name:\tfirst\nName:\tsecond\n";
    let d = read_proc_status(raw).unwrap();
    assert_eq!(d.name, "second");
    assert_eq!(d.vctxsw, 0);
}

#[test]
fn proc_status_rejects_malformed_recognized_line() {
    assert!(read_proc_status("Name:\n").is_none());
    assert!(read_proc_status("voluntary_ctxt_switches:\tx\n").is_none());
}

#[test]
fn proc_schedstat_reads_three_counters() {
    let d = read_proc_schedstat("123 456 7\n").unwrap();
    assert_eq!(d.on_cpu, 123);
    assert_eq!(d.waiting_for_cpu, 456);
    assert_eq!(d.slices, 7);
    assert!(read_proc_schedstat("1 2\n").is_none());
}

#[test]
fn counter_at_the_type_limit_parses_and_one_past_does_not() {
    let raw = format!("cpu {} 0 0 0 0 0 0 0 0 0\n", u64::MAX);
    let d = read_stat(&raw).unwrap();
    assert_eq!(d.user, u64::MAX);
    let over = "cpu 18446744073709551616 0 0 0 0 0 0 0 0 0\n";
    assert!(read_stat(over).is_none());
}
