use mole::output::{Column, Data, Table};
use mole::procfs::{ProcSchedstatData, ProcStatData, ProcStatusData, StatData};
use mole::report::print_delta_procs;
use mole::snapshot::{
    diff, inspect_process, inspect_thread, pct_fixed_exec, system_load, ProcessDataSnapshot,
    ThreadDataSnapshot,
};

fn sample(user: u64, idle: u64) -> StatData {
    StatData {
        user,
        nice: 0,
        system: 0,
        idle,
        iowait: 0,
        irq: 0,
        softirq: 0,
        steal: 0,
        guest: 0,
        guest_nice: 0,
    }
}

fn thread(pid: i32, name: &str, utime: u64, on_cpu: u64, slices: u64) -> ThreadDataSnapshot {
    ThreadDataSnapshot {
        pid,
        comm: name.to_string(),
        utime,
        stime: 0,
        vctxsw: 0,
        ivctxsw: 0,
        on_cpu,
        waiting_for_cpu: 0,
        slices,
    }
}

#[test]
fn system_load_of_a_sample_against_itself_is_zero() {
    let a = sample(123, 456);
    assert_eq!(system_load(&a, &a), 0);
}

#[test]
fn system_load_subtracts_idle_ticks() {
    let prev = sample(0, 0);
    let curr = sample(5, 3);
    assert_eq!(system_load(&prev, &curr), 5);
}

#[test]
fn inspect_thread_combines_reads_and_scales_to_microseconds() {
    let t = inspect_thread(
        7,
        Some(ProcStatData { utime: 10, stime: 20 }),
        Some(ProcStatusData { name: "w".to_string(), vctxsw: 1, ivctxsw: 2 }),
        Some(ProcSchedstatData { on_cpu: 1234567, waiting_for_cpu: 2000, slices: 3 }),
    )
    .unwrap();
    assert_eq!(t.pid, 7);
    assert_eq!(t.comm, "w");
    assert_eq!(t.utime, 10);
    assert_eq!(t.stime, 20);
    assert_eq!(t.on_cpu, 1234);
    assert_eq!(t.waiting_for_cpu, 2);
    assert_eq!(t.slices, 3);
}

#[test]
fn inspect_thread_needs_all_three_reads() {
    assert!(inspect_thread(
        7,
        None,
        Some(ProcStatusData { name: "w".to_string(), vctxsw: 0, ivctxsw: 0 }),
        Some(ProcSchedstatData { on_cpu: 0, waiting_for_cpu: 0, slices: 0 }),
    )
    .is_none());
}

#[test]
fn inspect_process_omits_unreadable_threads() {
    let p = inspect_process(
        42,
        vec![(1, Some(thread(1, "a", 0, 0, 0))), (2, None), (3, Some(thread(3, "c", 0, 0, 0)))],
    )
    .unwrap();
    assert_eq!(p.pid, 42);
    assert_eq!(p.threads.len(), 2);
    assert_eq!(p.threads[0].pid, 1);
    assert_eq!(p.threads[1].pid, 3);
}

#[test]
fn diff_classifies_thread_lifecycle() {
    let prev = ProcessDataSnapshot {
        pid: 42,
        threads: vec![thread(1, "a", 0, 0, 0), thread(2, "b", 0, 0, 0)],
    };
    let curr = ProcessDataSnapshot {
        pid: 42,
        threads: vec![thread(2, "b", 0, 0, 0), thread(3, "c", 0, 0, 0)],
    };
    let r = diff(&prev, &curr, 0);
    assert_eq!(r.alive, vec![2]);
    assert_eq!(r.died, vec![1]);
    assert_eq!(r.born, vec![3]);
    assert_eq!(r.deltas.len(), 1);
    assert_eq!(r.deltas[0].pid, 2);
}

#[test]
fn delta_metrics_are_interval_differences() {
    let prev = ProcessDataSnapshot { pid: 1, threads: vec![thread(5, "t", 10, 100, 4)] };
    let curr = ProcessDataSnapshot { pid: 1, threads: vec![thread(5, "t", 15, 160, 10)] };
    let r = diff(&prev, &curr, 10);
    let d = &r.deltas[0];
    // 5 ticks over 10 busy ticks: 50 percent, in ten-thousandths
    assert_eq!(d.usr_pct, 500000);
    assert_eq!(d.on_cpu, 60);
    assert_eq!(d.slices, 6);
    assert_eq!(d.avg_slice, 10);
}

#[test]
fn average_slice_is_zero_without_new_dispatches() {
    let prev = ProcessDataSnapshot { pid: 1, threads: vec![thread(5, "t", 0, 100, 4)] };
    let curr = ProcessDataSnapshot { pid: 1, threads: vec![thread(5, "t", 0, 175, 4)] };
    let r = diff(&prev, &curr, 10);
    assert_eq!(r.deltas[0].on_cpu, 75);
    assert_eq!(r.deltas[0].avg_slice, 0);
}

#[test]
fn cpu_share_of_degenerate_interval_is_zero() {
    assert_eq!(pct_fixed_exec(123, 0), 0);
    assert_eq!(pct_fixed_exec(1, 4), 250000);
}

fn delta_table() -> Table {
    let cols = vec![
        ("pid", 8),
        ("comm", 16),
        ("usr%", 4),
        ("sys%", 4),
        ("on_cpu", 10),
        ("wait", 10),
        ("slices", 10),
        ("avg_slice", 10),
        ("vctxsw", 10),
        ("ivctxsw", 10),
    ];
    let columns = cols
        .into_iter()
        .map(|(t, w)| Column { title: t.to_string(), width: w })
        .collect();
    Table::new(columns)
}

#[test]
fn delta_report_summarizes_lifecycle_and_clears_table() {
    let prev = ProcessDataSnapshot {
        pid: 42,
        threads: vec![thread(1, "a", 0, 0, 0), thread(2, "b", 0, 0, 0)],
    };
    let curr = ProcessDataSnapshot {
        pid: 42,
        threads: vec![thread(2, "b", 3, 9, 1), thread(3, "c", 0, 0, 0)],
    };
    let mut table = delta_table();
    let out = print_delta_procs(&mut table, &prev, &curr, 6);
    let mut lines = out.lines();
    assert_eq!(lines.next().unwrap(), "2 threads, 1 died, 1 born");
    let header = lines.next().unwrap();
    assert!(header.starts_with("pid      comm             usr% sys% on_cpu"));
    assert!(out.contains("\n2        b                50.0 0.0  9          0          1          9          0          0          \n"));
    assert_eq!(table.data.len(), 0);
}

#[test]
fn delta_report_respects_filter_column() {
    let prev = ProcessDataSnapshot {
        pid: 1,
        threads: vec![thread(1, "idle", 0, 0, 0), thread(2, "busy", 0, 0, 0)],
    };
    let curr = ProcessDataSnapshot {
        pid: 1,
        threads: vec![thread(1, "idle", 0, 0, 0), thread(2, "busy", 0, 50, 5)],
    };
    let mut table = delta_table();
    table.filter_by = Some(4);
    let out = print_delta_procs(&mut table, &prev, &curr, 10);
    assert!(!out.contains("idle"));
    assert!(out.contains("busy"));
}
