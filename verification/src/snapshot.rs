//! Per-thread and per-process counter snapshots, whole-system load,
//! and the normalized delta between two time-separated snapshots with
//! thread-lifecycle tracking.

use vstd::prelude::*;
use crate::procfs::{ProcSchedstatData, ProcStatData, ProcStatusData, StatData};

verus! {

/// Immutable record of one thread's cumulative counters at one
/// instant. On-CPU and wait times are in microseconds.
pub struct ThreadDataSnapshot {
    pub pid: i32,
    pub comm: String,
    pub utime: u64,
    pub stime: u64,
    pub vctxsw: u64,
    pub ivctxsw: u64,
    pub on_cpu: u64,
    pub waiting_for_cpu: u64,
    pub slices: u64,
}

/// Combines one thread's three counter reads into a snapshot record;
/// a thread any of whose reads failed is unavailable this cycle. The
/// nanosecond scheduling times are scaled to microseconds.
pub fn inspect_thread(
    pid: i32,
    stat: Option<ProcStatData>,
    status: Option<ProcStatusData>,
    schedstat: Option<ProcSchedstatData>,
) -> (r: Option<ThreadDataSnapshot>)
    ensures
        (match r {
            Some(t) => {
                &&& stat matches Some(st)
                &&& status matches Some(su)
                &&& schedstat matches Some(sc)
                &&& t.pid == pid
                &&& t.comm == su.name
                &&& t.utime == st.utime
                &&& t.stime == st.stime
                &&& t.vctxsw == su.vctxsw
                &&& t.ivctxsw == su.ivctxsw
                &&& t.on_cpu == sc.on_cpu / 1000
                &&& t.waiting_for_cpu == sc.waiting_for_cpu / 1000
                &&& t.slices == sc.slices
            },
            None => stat is None || status is None || schedstat is None,
        }),
{
    let stat = match stat {
        Some(s) => s,
        None => {
            return None;
        },
    };
    let status = match status {
        Some(s) => s,
        None => {
            return None;
        },
    };
    let schedstat = match schedstat {
        Some(s) => s,
        None => {
            return None;
        },
    };
    Some(
        ThreadDataSnapshot {
            pid,
            comm: status.name,
            utime: stat.utime,
            stime: stat.stime,
            vctxsw: status.vctxsw,
            ivctxsw: status.ivctxsw,
            on_cpu: schedstat.on_cpu / 1000,
            waiting_for_cpu: schedstat.waiting_for_cpu / 1000,
            slices: schedstat.slices,
        },
    )
}

/// One process at one instant: its id and the snapshots of the
/// threads that could be read, one per thread id.
pub struct ProcessDataSnapshot {
    pub pid: i32,
    pub threads: Vec<ThreadDataSnapshot>,
}

impl ProcessDataSnapshot {
    /// Each thread id appears at most once.
    pub open spec fn wf(self) -> bool {
        forall|i: int, j: int|
            0 <= i < j < self.threads@.len() ==> (#[trigger] self.threads@[i]).pid != (
            #[trigger] self.threads@[j]).pid
    }

    /// Whether a thread with this id is in the snapshot.
    pub open spec fn has_tid(self, tid: i32) -> bool {
        exists|k: int| 0 <= k < self.threads@.len() && (#[trigger] self.threads@[k]).pid == tid
    }

    /// The position of the thread with this id.
    pub open spec fn index_of(self, tid: i32) -> int {
        choose|k: int| 0 <= k < self.threads@.len() && (#[trigger] self.threads@[k]).pid == tid
    }

    /// The snapshot of the thread with this id.
    pub open spec fn thread_of(self, tid: i32) -> ThreadDataSnapshot {
        self.threads@[self.index_of(tid)]
    }

    /// The set of thread ids in the snapshot.
    pub open spec fn tid_set(self) -> Set<i32> {
        Set::new(|t: i32| self.has_tid(t))
    }

    /// Finds the snapshot of one thread by id.
    pub fn get_thread(&self, tid: i32) -> (r: Option<&ThreadDataSnapshot>)
        requires
            self.wf(),
        ensures
            (match r {
                Some(t) => self.has_tid(tid) && *t == self.thread_of(tid),
                None => !self.has_tid(tid),
            }),
    {
        let n = self.threads.len();
        let mut k: usize = 0;
        while k < n
            invariant
                k <= n,
                n == self.threads@.len(),
                self.wf(),
                forall|m: int| 0 <= m < k ==> (#[trigger] self.threads@[m]).pid != tid,
            decreases n - k,
        {
            if self.threads[k].pid == tid {
                proof {
                    let w = self.index_of(tid);
                    assert(0 <= w < self.threads@.len() && self.threads@[w].pid == tid);
                    assert(w == k as int);
                }
                return Some(&self.threads[k]);
            }
            k = k + 1;
        }
        None
    }
}

/// The thread entries kept when assembling a process snapshot: those
/// whose counters could all be read, in enumeration order.
pub open spec fn spec_kept_threads(
    entries: Seq<(i32, Option<ThreadDataSnapshot>)>,
    n: int,
) -> Seq<ThreadDataSnapshot>
    decreases n,
{
    if n <= 0 {
        Seq::<ThreadDataSnapshot>::empty()
    } else {
        spec_kept_threads(entries, n - 1) + (match entries[n - 1].1 {
            Some(t) => seq![t],
            None => Seq::<ThreadDataSnapshot>::empty(),
        })
    }
}

/// Assembles a process snapshot from the enumerated thread ids and
/// their attempted reads; a thread whose counters could not be read
/// (it raced an exit) is silently omitted, not an error.
pub fn inspect_process(pid: i32, entries: Vec<(i32, Option<ThreadDataSnapshot>)>) -> (r: Option<
    ProcessDataSnapshot,
>)
    requires
        forall|i: int, j: int|
            0 <= i < j < entries@.len() ==> (#[trigger] entries@[i]).0 != (
            #[trigger] entries@[j]).0,
        forall|i: int|
            0 <= i < entries@.len() ==> ((#[trigger] entries@[i]).1 matches Some(t) ==> t.pid
                == entries@[i].0),
    ensures
        (match r {
            Some(p) => {
                &&& p.pid == pid
                &&& p.threads@ == spec_kept_threads(entries@, entries@.len() as int)
                &&& p.wf()
            },
            None => false,
        }),
{
    let ghost orig = entries@;
    let mut rest = entries;
    let mut threads: Vec<ThreadDataSnapshot> = Vec::new();
    let ghost mut i: int = 0;
    while rest.len() > 0
        invariant
            0 <= i <= orig.len(),
            i + rest@.len() == orig.len(),
            rest@ =~= orig.skip(i),
            threads@ == spec_kept_threads(orig, i),
            forall|i1: int, j1: int|
                0 <= i1 < j1 < orig.len() ==> (#[trigger] orig[i1]).0 != (#[trigger] orig[j1]).0,
            forall|i1: int|
                0 <= i1 < orig.len() ==> ((#[trigger] orig[i1]).1 matches Some(t) ==> t.pid
                    == orig[i1].0),
            forall|m: int|
                0 <= m < threads@.len() ==> exists|k: int|
                    0 <= k < i && (#[trigger] orig[k]).0 == (#[trigger] threads@[m]).pid
                        && orig[k].1 == Some(threads@[m]),
            forall|m1: int, m2: int|
                0 <= m1 < m2 < threads@.len() ==> (#[trigger] threads@[m1]).pid != (
                #[trigger] threads@[m2]).pid,
        decreases rest@.len(),
    {
        let e = rest.remove(0);
        proof {
            assert(e == orig[i]);
            assert(rest@ =~= orig.skip(i + 1));
        }
        let ghost prev_threads = threads@;
        match e.1 {
            Some(td) => {
                proof {
                    assert(td.pid == orig[i].0);
                    assert forall|m: int| 0 <= m < prev_threads.len() implies (
                    #[trigger] prev_threads[m]).pid != td.pid by {
                        let k = choose|k: int|
                            0 <= k < i && (#[trigger] orig[k]).0 == prev_threads[m].pid && orig[k].1
                                == Some(prev_threads[m]);
                        assert(orig[k].0 != orig[i].0);
                    }
                }
                threads.push(td);
            },
            None => {},
        }
        proof {
            i = i + 1;
            assert(threads@ =~= spec_kept_threads(orig, i));
        }
    }
    proof {
        assert(spec_kept_threads(orig, i) == spec_kept_threads(entries@, entries@.len() as int));
    }
    Some(ProcessDataSnapshot { pid, threads })
}

/// The display name a thread id resolves to: the thread's name in the
/// current snapshot, or the sentinel for an id no longer present.
pub open spec fn name_chars(curr: ProcessDataSnapshot, pid: i32) -> Seq<char> {
    if curr.has_tid(pid) {
        curr.thread_of(pid).comm@
    } else {
        "unknown"@
    }
}

/// Resolves a thread id to its display name, with a sentinel for an
/// id not in the snapshot (an already-exited thread, for instance).
pub fn name_of(curr: &ProcessDataSnapshot, pid: i32) -> (r: String)
    requires
        curr.wf(),
    ensures
        r@ == name_chars(*curr, pid),
{
    match curr.get_thread(pid) {
        Some(t) => t.comm.clone(),
        None => "unknown".to_owned(),
    }
}

/// Total of a whole-system sample's ten cumulative tick categories.
pub open spec fn stat_total(s: StatData) -> int {
    s.user + s.nice + s.system + s.idle + s.iowait + s.irq + s.softirq + s.steal + s.guest
        + s.guest_nice
}

/// Whether every category of `n` is at or above the matching category
/// of `p`, as consecutive same-source samples are by OS contract.
pub open spec fn stat_le(p: StatData, n: StatData) -> bool {
    &&& p.user <= n.user
    &&& p.nice <= n.nice
    &&& p.system <= n.system
    &&& p.idle <= n.idle
    &&& p.iowait <= n.iowait
    &&& p.irq <= n.irq
    &&& p.softirq <= n.softirq
    &&& p.steal <= n.steal
    &&& p.guest <= n.guest
    &&& p.guest_nice <= n.guest_nice
}

/// Busy ticks elapsed between two samples: all elapsed ticks less the
/// elapsed idle ticks.
pub open spec fn spec_system_load(p: StatData, n: StatData) -> int {
    stat_total(n) - stat_total(p) - (n.idle - p.idle)
}

/// Busy ticks in the interval between two whole-system samples.
/// Callers must supply consecutive samples of one source; the engine
/// does not guard against non-monotonic input.
pub fn system_load(p: &StatData, n: &StatData) -> (r: u64)
    requires
        stat_le(*p, *n),
        stat_total(*n) <= u64::MAX,
    ensures
        r == spec_system_load(*p, *n),
{
    let total_n: u64 = n.user + n.nice + n.system + n.idle + n.iowait + n.irq + n.softirq + n.steal
        + n.guest + n.guest_nice;
    let total_p: u64 = p.user + p.nice + p.system + p.idle + p.iowait + p.irq + p.softirq + p.steal
        + p.guest + p.guest_nice;
    let total = total_n - total_p;
    let idle = n.idle - p.idle;
    total - idle
}

/// No elapsed ticks mean zero load: the load of a sample against
/// itself is zero.
pub proof fn lemma_system_load_self(a: StatData)
    ensures
        spec_system_load(a, a) == 0,
{
}

/// With every category non-decreasing, the load is never negative.
pub proof fn lemma_system_load_nonneg(p: StatData, n: StatData)
    requires
        stat_le(p, n),
    ensures
        spec_system_load(p, n) >= 0,
{
}

/// Thread ids present in both snapshots.
pub open spec fn alive_set(prev: ProcessDataSnapshot, curr: ProcessDataSnapshot) -> Set<i32> {
    prev.tid_set().intersect(curr.tid_set())
}

/// Thread ids present only in the earlier snapshot.
pub open spec fn died_set(prev: ProcessDataSnapshot, curr: ProcessDataSnapshot) -> Set<i32> {
    prev.tid_set().difference(curr.tid_set())
}

/// Thread ids present only in the later snapshot.
pub open spec fn born_set(prev: ProcessDataSnapshot, curr: ProcessDataSnapshot) -> Set<i32> {
    curr.tid_set().difference(prev.tid_set())
}

/// Lifecycle partition: the surviving and the vanished thread ids are
/// disjoint and together cover the earlier snapshot; the surviving
/// and the newly appeared ids are disjoint and together cover the
/// later one.
pub proof fn lemma_lifecycle_partition(prev: ProcessDataSnapshot, curr: ProcessDataSnapshot)
    ensures
        alive_set(prev, curr).intersect(died_set(prev, curr)) =~= Set::<i32>::empty(),
        alive_set(prev, curr).intersect(born_set(prev, curr)) =~= Set::<i32>::empty(),
        alive_set(prev, curr).union(died_set(prev, curr)) =~= prev.tid_set(),
        alive_set(prev, curr).union(born_set(prev, curr)) =~= curr.tid_set(),
{
}

/// Whether the later record's counters are all at or above the
/// earlier record's, thread by thread.
pub open spec fn counters_le(p: ThreadDataSnapshot, c: ThreadDataSnapshot) -> bool {
    &&& p.utime <= c.utime
    &&& p.stime <= c.stime
    &&& p.vctxsw <= c.vctxsw
    &&& p.ivctxsw <= c.ivctxsw
    &&& p.on_cpu <= c.on_cpu
    &&& p.waiting_for_cpu <= c.waiting_for_cpu
    &&& p.slices <= c.slices
}

/// Counters of every thread alive across both snapshots are
/// monotonic, as cumulative same-thread counters are by OS contract.
pub open spec fn deltas_monotonic(prev: ProcessDataSnapshot, curr: ProcessDataSnapshot) -> bool {
    forall|t: i32|
        prev.has_tid(t) && curr.has_tid(t) ==> counters_le(
            #[trigger] prev.thread_of(t),
            #[trigger] curr.thread_of(t),
        )
}

/// CPU share of an interval in fixed-point ten-thousandths of a
/// percent: delta over load, times one hundred. A degenerate zero
/// load yields zero, never a divide fault; a result beyond the cell
/// range saturates.
pub open spec fn pct_fixed(delta: int, load: int) -> int {
    if load <= 0 {
        0
    } else if delta * 1000000 / load > i64::MAX {
        i64::MAX as int
    } else {
        delta * 1000000 / load
    }
}

/// Computes the fixed-point CPU share of `delta` ticks against `load`
/// busy ticks.
pub fn pct_fixed_exec(delta: u64, load: u64) -> (r: i64)
    ensures
        r == pct_fixed(delta as int, load as int),
{
    if load == 0 {
        0
    } else {
        let q: u128 = (delta as u128) * 1000000u128 / (load as u128);
        if q > (i64::MAX as u128) {
            i64::MAX
        } else {
            q as i64
        }
    }
}

/// Average run-slice length over an interval: on-CPU time per
/// dispatch, and zero when there was no new dispatch — a thread with
/// no new slices has its undefined average defined as zero.
pub open spec fn avg_slice(on_cpu: int, slices: int) -> int {
    if slices > 0 {
        on_cpu / slices
    } else {
        0
    }
}

/// A zero dispatch delta yields an average of exactly zero, whatever
/// the on-CPU delta.
pub proof fn lemma_avg_slice_zero(on_cpu: int)
    ensures
        avg_slice(on_cpu, 0) == 0,
{
}

/// One thread's normalized interval metrics.
pub struct ThreadDelta {
    pub pid: i32,
    pub comm: String,
    pub usr_pct: i64,
    pub sys_pct: i64,
    pub on_cpu: u64,
    pub waiting_for_cpu: u64,
    pub slices: u64,
    pub avg_slice: u64,
    pub vctxsw: u64,
    pub ivctxsw: u64,
}

/// The normalized delta of one thread across the interval.
pub open spec fn spec_thread_delta(
    p: ThreadDataSnapshot,
    c: ThreadDataSnapshot,
    load: int,
) -> ThreadDelta
    recommends
        counters_le(p, c),
{
    ThreadDelta {
        pid: p.pid,
        comm: p.comm,
        usr_pct: pct_fixed(c.utime - p.utime, load) as i64,
        sys_pct: pct_fixed(c.stime - p.stime, load) as i64,
        on_cpu: (c.on_cpu - p.on_cpu) as u64,
        waiting_for_cpu: (c.waiting_for_cpu - p.waiting_for_cpu) as u64,
        slices: (c.slices - p.slices) as u64,
        avg_slice: avg_slice(c.on_cpu - p.on_cpu, c.slices - p.slices) as u64,
        vctxsw: (c.vctxsw - p.vctxsw) as u64,
        ivctxsw: (c.ivctxsw - p.ivctxsw) as u64,
    }
}

/// Thread ids of the first `n` entries of `prev` that are alive in
/// `curr`, in `prev`'s order.
pub open spec fn spec_alive_seq(
    prev: ProcessDataSnapshot,
    curr: ProcessDataSnapshot,
    n: int,
) -> Seq<i32>
    decreases n,
{
    if n <= 0 {
        Seq::<i32>::empty()
    } else {
        spec_alive_seq(prev, curr, n - 1) + (if curr.has_tid(prev.threads@[n - 1].pid) {
            seq![prev.threads@[n - 1].pid]
        } else {
            Seq::<i32>::empty()
        })
    }
}

/// Thread ids of the first `n` entries of `prev` that are gone from
/// `curr`, in `prev`'s order.
pub open spec fn spec_died_seq(
    prev: ProcessDataSnapshot,
    curr: ProcessDataSnapshot,
    n: int,
) -> Seq<i32>
    decreases n,
{
    if n <= 0 {
        Seq::<i32>::empty()
    } else {
        spec_died_seq(prev, curr, n - 1) + (if !curr.has_tid(prev.threads@[n - 1].pid) {
            seq![prev.threads@[n - 1].pid]
        } else {
            Seq::<i32>::empty()
        })
    }
}

/// Thread ids of the first `n` entries of `curr` that are new since
/// `prev`, in `curr`'s order.
pub open spec fn spec_born_seq(
    prev: ProcessDataSnapshot,
    curr: ProcessDataSnapshot,
    n: int,
) -> Seq<i32>
    decreases n,
{
    if n <= 0 {
        Seq::<i32>::empty()
    } else {
        spec_born_seq(prev, curr, n - 1) + (if !prev.has_tid(curr.threads@[n - 1].pid) {
            seq![curr.threads@[n - 1].pid]
        } else {
            Seq::<i32>::empty()
        })
    }
}

/// The normalized deltas of the first `n` entries of `prev` that are
/// alive in `curr`, in `prev`'s order.
pub open spec fn spec_delta_seq(
    prev: ProcessDataSnapshot,
    curr: ProcessDataSnapshot,
    load: int,
    n: int,
) -> Seq<ThreadDelta>
    decreases n,
{
    if n <= 0 {
        Seq::<ThreadDelta>::empty()
    } else {
        spec_delta_seq(prev, curr, load, n - 1) + (if curr.has_tid(prev.threads@[n - 1].pid) {
            seq![
                spec_thread_delta(
                    prev.threads@[n - 1],
                    curr.thread_of(prev.threads@[n - 1].pid),
                    load,
                ),
            ]
        } else {
            Seq::<ThreadDelta>::empty()
        })
    }
}

proof fn lemma_alive_seq_mem(prev: ProcessDataSnapshot, curr: ProcessDataSnapshot, n: int, t: i32)
    requires
        0 <= n <= prev.threads@.len(),
    ensures
        spec_alive_seq(prev, curr, n).contains(t) <==> (curr.has_tid(t) && exists|k: int|
            0 <= k < n && (#[trigger] prev.threads@[k]).pid == t),
    decreases n,
{
    if n > 0 {
        lemma_alive_seq_mem(prev, curr, n - 1, t);
        let s0 = spec_alive_seq(prev, curr, n - 1);
        let s = spec_alive_seq(prev, curr, n);
        let p = prev.threads@[n - 1].pid;
        if curr.has_tid(p) {
            assert(s =~= s0.push(p));
            if s0.contains(t) {
                let i = choose|i: int| 0 <= i < s0.len() && s0[i] == t;
                assert(s[i] == t);
            }
            if t == p {
                assert(s[s.len() - 1] == t);
            }
            if s.contains(t) && !s0.contains(t) && t != p {
                let i = choose|i: int| 0 <= i < s.len() && s[i] == t;
                assert(s0[i] == t);
            }
        } else {
            assert(s =~= s0);
        }
    }
}

proof fn lemma_died_seq_mem(prev: ProcessDataSnapshot, curr: ProcessDataSnapshot, n: int, t: i32)
    requires
        0 <= n <= prev.threads@.len(),
    ensures
        spec_died_seq(prev, curr, n).contains(t) <==> (!curr.has_tid(t) && exists|k: int|
            0 <= k < n && (#[trigger] prev.threads@[k]).pid == t),
    decreases n,
{
    if n > 0 {
        lemma_died_seq_mem(prev, curr, n - 1, t);
        let s0 = spec_died_seq(prev, curr, n - 1);
        let s = spec_died_seq(prev, curr, n);
        let p = prev.threads@[n - 1].pid;
        if !curr.has_tid(p) {
            assert(s =~= s0.push(p));
            if s0.contains(t) {
                let i = choose|i: int| 0 <= i < s0.len() && s0[i] == t;
                assert(s[i] == t);
            }
            if t == p {
                assert(s[s.len() - 1] == t);
            }
            if s.contains(t) && !s0.contains(t) && t != p {
                let i = choose|i: int| 0 <= i < s.len() && s[i] == t;
                assert(s0[i] == t);
            }
        } else {
            assert(s =~= s0);
        }
    }
}

proof fn lemma_born_seq_mem(prev: ProcessDataSnapshot, curr: ProcessDataSnapshot, n: int, t: i32)
    requires
        0 <= n <= curr.threads@.len(),
    ensures
        spec_born_seq(prev, curr, n).contains(t) <==> (!prev.has_tid(t) && exists|k: int|
            0 <= k < n && (#[trigger] curr.threads@[k]).pid == t),
    decreases n,
{
    if n > 0 {
        lemma_born_seq_mem(prev, curr, n - 1, t);
        let s0 = spec_born_seq(prev, curr, n - 1);
        let s = spec_born_seq(prev, curr, n);
        let p = curr.threads@[n - 1].pid;
        if !prev.has_tid(p) {
            assert(s =~= s0.push(p));
            if s0.contains(t) {
                let i = choose|i: int| 0 <= i < s0.len() && s0[i] == t;
                assert(s[i] == t);
            }
            if t == p {
                assert(s[s.len() - 1] == t);
            }
            if s.contains(t) && !s0.contains(t) && t != p {
                let i = choose|i: int| 0 <= i < s.len() && s[i] == t;
                assert(s0[i] == t);
            }
        } else {
            assert(s =~= s0);
        }
    }
}

/// The id lists the diff reports carry exactly the lifecycle sets: an
/// id is listed alive just when both snapshots have it, dead just
/// when only the earlier one has it, and born just when only the
/// later one has it.
pub proof fn lemma_diff_reports_lifecycle(prev: ProcessDataSnapshot, curr: ProcessDataSnapshot)
    ensures
        forall|t: i32|
            #[trigger] spec_alive_seq(prev, curr, prev.threads@.len() as int).contains(t)
                <==> alive_set(
                prev,
                curr,
            ).contains(t),
        forall|t: i32|
            #[trigger] spec_died_seq(prev, curr, prev.threads@.len() as int).contains(t)
                <==> died_set(
                prev,
                curr,
            ).contains(t),
        forall|t: i32|
            #[trigger] spec_born_seq(prev, curr, curr.threads@.len() as int).contains(t)
                <==> born_set(
                prev,
                curr,
            ).contains(t),
{
    assert forall|t: i32|
        #[trigger] spec_alive_seq(prev, curr, prev.threads@.len() as int).contains(t) <==> alive_set(
            prev,
            curr,
        ).contains(t) by {
        lemma_alive_seq_mem(prev, curr, prev.threads@.len() as int, t);
    }
    assert forall|t: i32|
        #[trigger] spec_died_seq(prev, curr, prev.threads@.len() as int).contains(t) <==> died_set(
            prev,
            curr,
        ).contains(t) by {
        lemma_died_seq_mem(prev, curr, prev.threads@.len() as int, t);
    }
    assert forall|t: i32|
        #[trigger] spec_born_seq(prev, curr, curr.threads@.len() as int).contains(t) <==> born_set(
            prev,
            curr,
        ).contains(t) by {
        lemma_born_seq_mem(prev, curr, curr.threads@.len() as int, t);
    }
}

/// The delta of two snapshots: the lifecycle sets as ordered id
/// lists, and one normalized metrics row per surviving thread.
pub struct DeltaReport {
    pub alive: Vec<i32>,
    pub died: Vec<i32>,
    pub born: Vec<i32>,
    pub deltas: Vec<ThreadDelta>,
}

/// Diffs two snapshots of the same process: classifies every thread
/// id as alive, died or born, and computes the normalized per-thread
/// metrics for the alive ones against the interval's busy ticks.
pub fn diff(prev: &ProcessDataSnapshot, curr: &ProcessDataSnapshot, load: u64) -> (r: DeltaReport)
    requires
        prev.pid == curr.pid,
        prev.wf(),
        curr.wf(),
        deltas_monotonic(*prev, *curr),
    ensures
        r.alive@ == spec_alive_seq(*prev, *curr, prev.threads@.len() as int),
        r.died@ == spec_died_seq(*prev, *curr, prev.threads@.len() as int),
        r.born@ == spec_born_seq(*prev, *curr, curr.threads@.len() as int),
        r.deltas@ == spec_delta_seq(*prev, *curr, load as int, prev.threads@.len() as int),
{
    let mut alive: Vec<i32> = Vec::new();
    let mut died: Vec<i32> = Vec::new();
    let mut born: Vec<i32> = Vec::new();
    let mut deltas: Vec<ThreadDelta> = Vec::new();

    let np = prev.threads.len();
    let mut i: usize = 0;
    while i < np
        invariant
            i <= np,
            np == prev.threads@.len(),
            prev.wf(),
            curr.wf(),
            deltas_monotonic(*prev, *curr),
            alive@ == spec_alive_seq(*prev, *curr, i as int),
            died@ == spec_died_seq(*prev, *curr, i as int),
            deltas@ == spec_delta_seq(*prev, *curr, load as int, i as int),
        decreases np - i,
    {
        let p = &prev.threads[i];
        match curr.get_thread(p.pid) {
            Some(c) => {
                alive.push(p.pid);
                proof {
                    assert(counters_le(prev.thread_of(p.pid), curr.thread_of(p.pid)));
                    let w = prev.index_of(p.pid);
                    assert(0 <= w < prev.threads@.len() && prev.threads@[w].pid == p.pid);
                    assert(w == i as int);
                    assert(prev.thread_of(p.pid) == prev.threads@[i as int]);
                }
                let on_cpu = c.on_cpu - p.on_cpu;
                let slices = c.slices - p.slices;
                let avg: u64 = if slices > 0 {
                    on_cpu / slices
                } else {
                    0
                };
                let d = ThreadDelta {
                    pid: p.pid,
                    comm: p.comm.clone(),
                    usr_pct: pct_fixed_exec(c.utime - p.utime, load),
                    sys_pct: pct_fixed_exec(c.stime - p.stime, load),
                    on_cpu,
                    waiting_for_cpu: c.waiting_for_cpu - p.waiting_for_cpu,
                    slices,
                    avg_slice: avg,
                    vctxsw: c.vctxsw - p.vctxsw,
                    ivctxsw: c.ivctxsw - p.ivctxsw,
                };
                deltas.push(d);
                proof {
                    assert(deltas@ =~= spec_delta_seq(*prev, *curr, load as int, i + 1));
                    assert(alive@ =~= spec_alive_seq(*prev, *curr, i + 1));
                    assert(died@ =~= spec_died_seq(*prev, *curr, i + 1));
                }
            },
            None => {
                died.push(p.pid);
                proof {
                    assert(alive@ =~= spec_alive_seq(*prev, *curr, i + 1));
                    assert(died@ =~= spec_died_seq(*prev, *curr, i + 1));
                    assert(deltas@ =~= spec_delta_seq(*prev, *curr, load as int, i + 1));
                }
            },
        }
        i = i + 1;
    }

    let nc = curr.threads.len();
    let mut j: usize = 0;
    while j < nc
        invariant
            j <= nc,
            nc == curr.threads@.len(),
            prev.wf(),
            curr.wf(),
            born@ == spec_born_seq(*prev, *curr, j as int),
        decreases nc - j,
    {
        let c = &curr.threads[j];
        match prev.get_thread(c.pid) {
            Some(_) => {
                proof {
                    assert(born@ =~= spec_born_seq(*prev, *curr, j + 1));
                }
            },
            None => {
                born.push(c.pid);
                proof {
                    assert(born@ =~= spec_born_seq(*prev, *curr, j + 1));
                }
            },
        }
        j = j + 1;
    }

    DeltaReport { alive, died, born, deltas }
}

} // verus!
