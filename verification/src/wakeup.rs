//! Classification of the wakeup-edge multiset against the observed
//! process: external inputs, external outputs, and internal
//! waker/wakee counts per thread, with their ranked display tables.

use vstd::prelude::*;
use crate::output::{render_chars, row_views, sort_rows, Column, Data, Table};
use crate::snapshot::{name_chars, name_of, ProcessDataSnapshot};
use crate::text;
use vstd::string::StrSliceExecFns;
use vstd::string::StringExecFns;

verus! {

/// The process half of a packed identifier: its high 32 bits.
pub open spec fn spec_tgid(tgidpid: u64) -> i32 {
    (tgidpid >> 32) as i32
}

/// The thread half of a packed identifier: its low 32 bits.
pub open spec fn spec_pid(tgidpid: u64) -> i32 {
    tgidpid as i32
}

/// Extracts the process id packed into the identifier's high half.
pub fn tgidpid_tgid(tgidpid: u64) -> (r: i32)
    ensures
        r == spec_tgid(tgidpid),
{
    #[verifier::truncate] ((tgidpid >> 32) as i32)
}

/// Extracts the thread id packed into the identifier's low half.
pub fn tgidpid_pid(tgidpid: u64) -> (r: i32)
    ensures
        r == spec_pid(tgidpid),
{
    #[verifier::truncate] (tgidpid as i32)
}

/// One directed wakeup edge: packed source and target identifiers,
/// and how often it was observed in the collection window.
pub struct WakeupEdge {
    pub src: u64,
    pub tgt: u64,
    pub count: u64,
}

/// A count per thread id, keyed uniquely, in first-touch order.
pub struct CountMap {
    pub entries: Vec<(i32, u64)>,
}

/// The count an entry list holds for a thread id; absent ids count
/// zero.
pub open spec fn count_of(m: Seq<(i32, u64)>, pid: i32) -> int
    decreases m.len(),
{
    if m.len() == 0 {
        0
    } else if m[0].0 == pid {
        m[0].1 as int
    } else {
        count_of(m.drop_first(), pid)
    }
}

/// An entry list after adding `c` to one thread's count: the entry is
/// bumped in place, or appended when the id is new.
pub open spec fn spec_bump(m: Seq<(i32, u64)>, pid: i32, c: u64) -> Seq<(i32, u64)>
    recommends
        count_of(m, pid) + c <= u64::MAX,
    decreases m.len(),
{
    if m.len() == 0 {
        seq![(pid, c)]
    } else if m[0].0 == pid {
        seq![(pid, (m[0].1 + c) as u64)] + m.drop_first()
    } else {
        seq![m[0]] + spec_bump(m.drop_first(), pid, c)
    }
}

proof fn lemma_bump_counts(m: Seq<(i32, u64)>, pid: i32, c: u64, q: i32)
    requires
        count_of(m, pid) + c <= u64::MAX,
    ensures
        count_of(spec_bump(m, pid, c), q) == count_of(m, q) + (if q == pid {
            c as int
        } else {
            0
        }),
    decreases m.len(),
{
    if m.len() == 0 {
        let b = spec_bump(m, pid, c);
        assert(b[0] == (pid, c));
        if q != pid {
            assert(count_of(b.drop_first(), q) == 0);
        }
    } else if m[0].0 == pid {
        let b = spec_bump(m, pid, c);
        assert(b.drop_first() =~= m.drop_first());
    } else {
        let b = spec_bump(m, pid, c);
        assert(b[0] == m[0]);
        assert(b.drop_first() =~= spec_bump(m.drop_first(), pid, c));
        lemma_bump_counts(m.drop_first(), pid, c, q);
    }
}

impl CountMap {
    /// Keys are unique.
    pub open spec fn wf(self) -> bool {
        forall|i: int, j: int|
            0 <= i < j < self.entries@.len() ==> (#[trigger] self.entries@[i]).0 != (
            #[trigger] self.entries@[j]).0
    }

    /// The count held for one thread id.
    pub open spec fn spec_count(self, pid: i32) -> int {
        count_of(self.entries@, pid)
    }

    /// A fresh, empty count map.
    pub fn new() -> (r: CountMap)
        ensures
            r.entries@ =~= Seq::<(i32, u64)>::empty(),
            r.wf(),
    {
        CountMap { entries: Vec::new() }
    }

    /// Adds `c` to one thread's count.
    #[verifier::rlimit(60)]
    pub fn bump(&mut self, pid: i32, c: u64)
        requires
            old(self).wf(),
            count_of(old(self).entries@, pid) + c <= u64::MAX,
        ensures
            final(self).entries@ == spec_bump(old(self).entries@, pid, c),
            final(self).wf(),
    {
        let ghost orig = self.entries@;
        let n = self.entries.len();
        let mut k: usize = 0;
        proof {
            assert(orig.skip(0) =~= orig);
            assert(orig.take(0) =~= Seq::<(i32, u64)>::empty());
            assert(spec_bump(orig, pid, c) =~= orig.take(0) + spec_bump(orig.skip(0), pid, c));
        }
        while k < n
            invariant
                k <= n,
                n == self.entries@.len(),
                self.entries@ == orig,
                orig == old(self).entries@,
                forall|i: int, j: int|
                    0 <= i < j < orig.len() ==> (#[trigger] orig[i]).0 != (#[trigger] orig[j]).0,
                forall|j: int| 0 <= j < k ==> (#[trigger] orig[j]).0 != pid,
                count_of(orig, pid) + c <= u64::MAX,
                spec_bump(orig, pid, c) =~= orig.take(k as int) + spec_bump(
                    orig.skip(k as int),
                    pid,
                    c,
                ),
                count_of(orig, pid) == count_of(orig.skip(k as int), pid),
            decreases n - k,
        {
            let (key, val) = self.entries[k];
            if key == pid {
                proof {
                    assert(orig.skip(k as int)[0] == orig[k as int]);
                    assert(count_of(orig.skip(k as int), pid) == val);
                }
                self.entries[k] = (pid, val + c);
                proof {
                    let t = orig.skip(k as int);
                    assert(seq![(pid, (val + c) as u64)] + t.drop_first() =~= self.entries@.skip(
                        k as int,
                    ));
                    assert(self.entries@ =~= orig.take(k as int) + self.entries@.skip(k as int));
                    assert(self.entries@ =~= spec_bump(orig, pid, c));
                    assert forall|i: int, j: int|
                        0 <= i < j < self.entries@.len() implies (#[trigger] self.entries@[i]).0
                        != (#[trigger] self.entries@[j]).0 by {
                        assert(self.entries@[i].0 == orig[i].0);
                        assert(self.entries@[j].0 == orig[j].0);
                    }
                }
                return ;
            }
            proof {
                let t = orig.skip(k as int);
                assert(t[0] == orig[k as int]);
                assert(t.drop_first() =~= orig.skip(k + 1));
                assert(spec_bump(t, pid, c) =~= seq![t[0]] + spec_bump(t.drop_first(), pid, c));
                assert(orig.take(k as int) + spec_bump(orig.skip(k as int), pid, c) =~= orig.take(
                    k + 1,
                ) + spec_bump(orig.skip(k + 1), pid, c));
            }
            k = k + 1;
        }
        proof {
            assert(orig.skip(n as int) =~= Seq::<(i32, u64)>::empty());
            assert(count_of(orig, pid) == 0);
        }
        self.entries.push((pid, c));
        proof {
            assert(self.entries@ =~= orig.take(n as int) + seq![(pid, c)]);
            assert(self.entries@ =~= spec_bump(orig, pid, c));
            assert forall|i: int, j: int|
                0 <= i < j < self.entries@.len() implies (#[trigger] self.entries@[i]).0 != (
            #[trigger] self.entries@[j]).0 by {
                if j == self.entries@.len() - 1 {
                    assert(self.entries@[i] == orig[i]);
                }
            }
        }
    }
}

/// Total of the first `n` edges' occurrence counts.
pub open spec fn total_count(edges: Seq<WakeupEdge>, n: int) -> int
    decreases n,
{
    if n <= 0 {
        0
    } else {
        total_count(edges, n - 1) + edges[n - 1].count
    }
}

/// Every edge touches the observed process on at least one side — the
/// kernel-side instrumentation guarantees it, and an edge violating
/// it is a protocol breach the classifier must not silently accept.
pub open spec fn edges_wf(edges: Seq<WakeupEdge>, tgid: i32) -> bool {
    forall|k: int|
        0 <= k < edges.len() ==> spec_tgid((#[trigger] edges[k]).src) == tgid || spec_tgid(
            edges[k].tgt,
        ) == tgid
}

/// Wakeups a thread received from outside the process, over the first
/// `n` edges: counts of edges whose source is foreign, keyed by the
/// target thread.
pub open spec fn inputs_count(edges: Seq<WakeupEdge>, tgid: i32, pid: i32, n: int) -> int
    decreases n,
{
    if n <= 0 {
        0
    } else {
        inputs_count(edges, tgid, pid, n - 1) + (if spec_tgid(edges[n - 1].src) != tgid && spec_pid(
            edges[n - 1].tgt,
        ) == pid {
            edges[n - 1].count as int
        } else {
            0
        })
    }
}

/// Wakeups a thread issued to outside the process: counts of edges
/// whose target is foreign, keyed by the source thread.
pub open spec fn outputs_count(edges: Seq<WakeupEdge>, tgid: i32, pid: i32, n: int) -> int
    decreases n,
{
    if n <= 0 {
        0
    } else {
        outputs_count(edges, tgid, pid, n - 1) + (if spec_tgid(edges[n - 1].tgt) != tgid
            && spec_pid(edges[n - 1].src) == pid {
            edges[n - 1].count as int
        } else {
            0
        })
    }
}

/// Wakeups a thread issued within the process, keyed by the source.
pub open spec fn wakers_count(edges: Seq<WakeupEdge>, tgid: i32, pid: i32, n: int) -> int
    decreases n,
{
    if n <= 0 {
        0
    } else {
        wakers_count(edges, tgid, pid, n - 1) + (if spec_tgid(edges[n - 1].src) == tgid && spec_tgid(
            edges[n - 1].tgt,
        ) == tgid && spec_pid(edges[n - 1].src) == pid {
            edges[n - 1].count as int
        } else {
            0
        })
    }
}

/// Wakeups a thread received within the process, keyed by the target.
pub open spec fn wakees_count(edges: Seq<WakeupEdge>, tgid: i32, pid: i32, n: int) -> int
    decreases n,
{
    if n <= 0 {
        0
    } else {
        wakees_count(edges, tgid, pid, n - 1) + (if spec_tgid(edges[n - 1].src) == tgid && spec_tgid(
            edges[n - 1].tgt,
        ) == tgid && spec_pid(edges[n - 1].tgt) == pid {
            edges[n - 1].count as int
        } else {
            0
        })
    }
}

/// Total count of edges whose source lies outside the observed
/// process, over the first `n` edges.
pub open spec fn inputs_total(edges: Seq<WakeupEdge>, tgid: i32, n: int) -> int
    decreases n,
{
    if n <= 0 {
        0
    } else {
        inputs_total(edges, tgid, n - 1) + (if spec_tgid(edges[n - 1].src) != tgid {
            edges[n - 1].count as int
        } else {
            0
        })
    }
}

/// Total count of edges whose target lies outside the observed
/// process, over the first `n` edges.
pub open spec fn outputs_total(edges: Seq<WakeupEdge>, tgid: i32, n: int) -> int
    decreases n,
{
    if n <= 0 {
        0
    } else {
        outputs_total(edges, tgid, n - 1) + (if spec_tgid(edges[n - 1].tgt) != tgid {
            edges[n - 1].count as int
        } else {
            0
        })
    }
}

/// Total count of edges internal to the observed process, over the
/// first `n` edges.
pub open spec fn internal_total(edges: Seq<WakeupEdge>, tgid: i32, n: int) -> int
    decreases n,
{
    if n <= 0 {
        0
    } else {
        internal_total(edges, tgid, n - 1) + (if spec_tgid(edges[n - 1].src) == tgid && spec_tgid(
            edges[n - 1].tgt,
        ) == tgid {
            edges[n - 1].count as int
        } else {
            0
        })
    }
}

/// The classification partitions the edge counts: with every edge
/// touching the observed process, each edge's count goes to exactly
/// one of the external-input, external-output and internal cases.
pub proof fn lemma_classification_partitions(edges: Seq<WakeupEdge>, tgid: i32, n: int)
    requires
        edges_wf(edges, tgid),
        0 <= n <= edges.len(),
    ensures
        inputs_total(edges, tgid, n) + outputs_total(edges, tgid, n) + internal_total(
            edges,
            tgid,
            n,
        ) == total_count(edges, n),
    decreases n,
{
    if n > 0 {
        lemma_classification_partitions(edges, tgid, n - 1);
    }
}

/// The four entry lists after classifying the first `n` edges, each
/// in first-touch order.
pub open spec fn classify_fold(edges: Seq<WakeupEdge>, tgid: i32, n: int) -> (
    Seq<(i32, u64)>,
    Seq<(i32, u64)>,
    Seq<(i32, u64)>,
    Seq<(i32, u64)>,
)
    decreases n,
{
    if n <= 0 {
        (
            Seq::<(i32, u64)>::empty(),
            Seq::<(i32, u64)>::empty(),
            Seq::<(i32, u64)>::empty(),
            Seq::<(i32, u64)>::empty(),
        )
    } else {
        let (ins, outs, wakers, wakees) = classify_fold(edges, tgid, n - 1);
        let e = edges[n - 1];
        (
            if spec_tgid(e.src) != tgid {
                spec_bump(ins, spec_pid(e.tgt), e.count)
            } else {
                ins
            },
            if spec_tgid(e.tgt) != tgid {
                spec_bump(outs, spec_pid(e.src), e.count)
            } else {
                outs
            },
            if spec_tgid(e.src) == tgid && spec_tgid(e.tgt) == tgid {
                spec_bump(wakers, spec_pid(e.src), e.count)
            } else {
                wakers
            },
            if spec_tgid(e.src) == tgid && spec_tgid(e.tgt) == tgid {
                spec_bump(wakees, spec_pid(e.tgt), e.count)
            } else {
                wakees
            },
        )
    }
}

/// Each category's count never exceeds the running total of edge
/// counts, and none is negative.
pub proof fn lemma_cat_le_total(edges: Seq<WakeupEdge>, tgid: i32, pid: i32, n: int)
    ensures
        0 <= inputs_count(edges, tgid, pid, n) <= total_count(edges, n),
        0 <= outputs_count(edges, tgid, pid, n) <= total_count(edges, n),
        0 <= wakers_count(edges, tgid, pid, n) <= total_count(edges, n),
        0 <= wakees_count(edges, tgid, pid, n) <= total_count(edges, n),
    decreases n,
{
    if n > 0 {
        lemma_cat_le_total(edges, tgid, pid, n - 1);
    }
}

proof fn lemma_total_mono(edges: Seq<WakeupEdge>, n: int, m: int)
    requires
        n <= m,
    ensures
        total_count(edges, n) <= total_count(edges, m),
    decreases m - n,
{
    if n < m {
        lemma_total_mono(edges, n, m - 1);
    }
}

/// The classified entry lists carry exactly the per-category sums.
pub proof fn lemma_classify_fold_counts(edges: Seq<WakeupEdge>, tgid: i32, n: int)
    requires
        total_count(edges, n) <= u64::MAX,
    ensures
        forall|q: i32|
            #[trigger] count_of(classify_fold(edges, tgid, n).0, q) == inputs_count(
                edges,
                tgid,
                q,
                n,
            ),
        forall|q: i32|
            #[trigger] count_of(classify_fold(edges, tgid, n).1, q) == outputs_count(
                edges,
                tgid,
                q,
                n,
            ),
        forall|q: i32|
            #[trigger] count_of(classify_fold(edges, tgid, n).2, q) == wakers_count(
                edges,
                tgid,
                q,
                n,
            ),
        forall|q: i32|
            #[trigger] count_of(classify_fold(edges, tgid, n).3, q) == wakees_count(
                edges,
                tgid,
                q,
                n,
            ),
    decreases n,
{
    if n > 0 {
        assert(total_count(edges, n - 1) <= total_count(edges, n)) by {
            lemma_total_mono(edges, n - 1, n);
        }
        lemma_classify_fold_counts(edges, tgid, n - 1);
        let (ins, outs, wakers, wakees) = classify_fold(edges, tgid, n - 1);
        let e = edges[n - 1];
        assert forall|q: i32|
            #[trigger] count_of(classify_fold(edges, tgid, n).0, q) == inputs_count(
                edges,
                tgid,
                q,
                n,
            ) by {
            if spec_tgid(e.src) != tgid {
                lemma_cat_le_total(edges, tgid, spec_pid(e.tgt), n - 1);
                lemma_bump_counts(ins, spec_pid(e.tgt), e.count, q);
            }
        }
        assert forall|q: i32|
            #[trigger] count_of(classify_fold(edges, tgid, n).1, q) == outputs_count(
                edges,
                tgid,
                q,
                n,
            ) by {
            if spec_tgid(e.tgt) != tgid {
                lemma_cat_le_total(edges, tgid, spec_pid(e.src), n - 1);
                lemma_bump_counts(outs, spec_pid(e.src), e.count, q);
            }
        }
        assert forall|q: i32|
            #[trigger] count_of(classify_fold(edges, tgid, n).2, q) == wakers_count(
                edges,
                tgid,
                q,
                n,
            ) by {
            if spec_tgid(e.src) == tgid && spec_tgid(e.tgt) == tgid {
                lemma_cat_le_total(edges, tgid, spec_pid(e.src), n - 1);
                lemma_bump_counts(wakers, spec_pid(e.src), e.count, q);
            }
        }
        assert forall|q: i32|
            #[trigger] count_of(classify_fold(edges, tgid, n).3, q) == wakees_count(
                edges,
                tgid,
                q,
                n,
            ) by {
            if spec_tgid(e.src) == tgid && spec_tgid(e.tgt) == tgid {
                lemma_cat_le_total(edges, tgid, spec_pid(e.tgt), n - 1);
                lemma_bump_counts(wakees, spec_pid(e.tgt), e.count, q);
            }
        }
    }
}

/// The per-thread wakeup counts of one collection window, one map per
/// causal category.
pub struct WakeupReport {
    pub inputs: CountMap,
    pub outputs: CountMap,
    pub wakers: CountMap,
    pub wakees: CountMap,
}

/// Classifies the window's wakeup edges against the observed process
/// id: an edge from a foreign process is an input to its target
/// thread, an edge to a foreign process an output of its source
/// thread, and an edge within the process counts its source as waker
/// and its target as wakee. The three cases partition the edges.
pub fn classify_wakeups(edges: &Vec<WakeupEdge>, tgid: i32) -> (r: WakeupReport)
    requires
        edges_wf(edges@, tgid),
        total_count(edges@, edges@.len() as int) <= u64::MAX,
    ensures
        r.inputs.entries@ == classify_fold(edges@, tgid, edges@.len() as int).0,
        r.outputs.entries@ == classify_fold(edges@, tgid, edges@.len() as int).1,
        r.wakers.entries@ == classify_fold(edges@, tgid, edges@.len() as int).2,
        r.wakees.entries@ == classify_fold(edges@, tgid, edges@.len() as int).3,
        r.inputs.wf() && r.outputs.wf() && r.wakers.wf() && r.wakees.wf(),
        forall|q: i32|
            #[trigger] r.inputs.spec_count(q) == inputs_count(
                edges@,
                tgid,
                q,
                edges@.len() as int,
            ),
        forall|q: i32|
            #[trigger] r.outputs.spec_count(q) == outputs_count(
                edges@,
                tgid,
                q,
                edges@.len() as int,
            ),
        forall|q: i32|
            #[trigger] r.wakers.spec_count(q) == wakers_count(
                edges@,
                tgid,
                q,
                edges@.len() as int,
            ),
        forall|q: i32|
            #[trigger] r.wakees.spec_count(q) == wakees_count(
                edges@,
                tgid,
                q,
                edges@.len() as int,
            ),
{
    let mut inputs = CountMap::new();
    let mut outputs = CountMap::new();
    let mut wakers = CountMap::new();
    let mut wakees = CountMap::new();

    let n = edges.len();
    let mut k: usize = 0;
    while k < n
        invariant
            k <= n,
            n == edges@.len(),
            edges_wf(edges@, tgid),
            total_count(edges@, edges@.len() as int) <= u64::MAX,
            inputs.entries@ == classify_fold(edges@, tgid, k as int).0,
            outputs.entries@ == classify_fold(edges@, tgid, k as int).1,
            wakers.entries@ == classify_fold(edges@, tgid, k as int).2,
            wakees.entries@ == classify_fold(edges@, tgid, k as int).3,
            inputs.wf() && outputs.wf() && wakers.wf() && wakees.wf(),
        decreases n - k,
    {
        let e = &edges[k];
        let tgid1 = tgidpid_tgid(e.src);
        let pid1 = tgidpid_pid(e.src);
        let tgid2 = tgidpid_tgid(e.tgt);
        let pid2 = tgidpid_pid(e.tgt);
        proof {
            lemma_total_mono(edges@, k + 1, edges@.len() as int);
            lemma_classify_fold_counts(edges@, tgid, k as int);
            lemma_total_mono(edges@, k as int, k + 1);
        }
        if tgid1 != tgid {
            proof {
                lemma_cat_le_total(edges@, tgid, pid2, k as int);
            }
            inputs.bump(pid2, e.count);
        }
        if tgid2 != tgid {
            proof {
                lemma_cat_le_total(edges@, tgid, pid1, k as int);
            }
            outputs.bump(pid1, e.count);
        }
        if tgid1 == tgid && tgid2 == tgid {
            proof {
                lemma_cat_le_total(edges@, tgid, pid1, k as int);
                lemma_cat_le_total(edges@, tgid, pid2, k as int);
            }
            wakers.bump(pid1, e.count);
            wakees.bump(pid2, e.count);
        }
        k = k + 1;
    }
    proof {
        lemma_classify_fold_counts(edges@, tgid, edges@.len() as int);
    }
    WakeupReport { inputs, outputs, wakers, wakees }
}

/// Stable insertion into a run sorted by descending count: the entry
/// lands after every entry whose count is at or above its own.
pub open spec fn insert_entry(sorted: Seq<(i32, u64)>, e: (i32, u64)) -> Seq<(i32, u64)>
    decreases sorted.len(),
{
    if sorted.len() == 0 {
        seq![e]
    } else if sorted.last().1 >= e.1 {
        sorted.push(e)
    } else {
        insert_entry(sorted.drop_last(), e).push(sorted.last())
    }
}

/// Stable sort of count entries by descending count; ties keep the
/// collection's own order.
pub open spec fn sort_entries_desc(s: Seq<(i32, u64)>) -> Seq<(i32, u64)>
    decreases s.len(),
{
    if s.len() == 0 {
        Seq::<(i32, u64)>::empty()
    } else {
        insert_entry(sort_entries_desc(s.drop_last()), s.last())
    }
}

proof fn lemma_insert_entry_at(sorted: Seq<(i32, u64)>, e: (i32, u64), j: int)
    requires
        0 <= j <= sorted.len(),
        forall|k: int| j <= k < sorted.len() ==> (#[trigger] sorted[k]).1 < e.1,
        j > 0 ==> sorted[j - 1].1 >= e.1,
    ensures
        insert_entry(sorted, e) =~= sorted.insert(j, e),
    decreases sorted.len(),
{
    if sorted.len() == 0 {
    } else if sorted.last().1 >= e.1 {
        assert(j == sorted.len());
    } else {
        assert(j < sorted.len());
        lemma_insert_entry_at(sorted.drop_last(), e, j);
        assert(insert_entry(sorted.drop_last(), e).push(sorted.last()) =~= sorted.insert(j, e));
    }
}

proof fn lemma_insert_entry_multiset(sorted: Seq<(i32, u64)>, e: (i32, u64))
    ensures
        insert_entry(sorted, e).to_multiset() =~= sorted.to_multiset().insert(e),
    decreases sorted.len(),
{
    broadcast use vstd::seq_lib::group_to_multiset_ensures;

    if sorted.len() == 0 {
        assert(insert_entry(sorted, e) =~= Seq::<(i32, u64)>::empty().push(e));
        assert(sorted =~= Seq::<(i32, u64)>::empty());
    } else if sorted.last().1 >= e.1 {
    } else {
        lemma_insert_entry_multiset(sorted.drop_last(), e);
        assert(sorted.drop_last().push(sorted.last()) =~= sorted);
    }
}

/// Ranking reorders the entries and does nothing else: the ranked
/// list holds exactly the map's entries, with multiplicity.
pub proof fn lemma_sort_entries_desc_multiset(s: Seq<(i32, u64)>)
    ensures
        sort_entries_desc(s).to_multiset() =~= s.to_multiset(),
    decreases s.len(),
{
    broadcast use vstd::seq_lib::group_to_multiset_ensures;

    if s.len() > 0 {
        lemma_sort_entries_desc_multiset(s.drop_last());
        lemma_insert_entry_multiset(sort_entries_desc(s.drop_last()), s.last());
        assert(s.drop_last().push(s.last()) =~= s);
    }
}

proof fn lemma_insert_entry_sorted(sorted: Seq<(i32, u64)>, e: (i32, u64))
    requires
        forall|i: int, j: int| 0 <= i < j < sorted.len() ==> sorted[i].1 >= sorted[j].1,
    ensures
        forall|i: int, j: int|
            0 <= i < j < insert_entry(sorted, e).len() ==> insert_entry(sorted, e)[i].1
                >= insert_entry(sorted, e)[j].1,
    decreases sorted.len(),
{
    broadcast use vstd::seq_lib::group_to_multiset_ensures;

    let r = insert_entry(sorted, e);
    if sorted.len() == 0 {
    } else if sorted.last().1 >= e.1 {
        assert forall|i: int, j: int| 0 <= i < j < r.len() implies r[i].1 >= r[j].1 by {
            if j == r.len() - 1 {
                if i < sorted.len() - 1 {
                    assert(sorted[i].1 >= sorted[sorted.len() - 1].1);
                }
            }
        }
    } else {
        lemma_insert_entry_sorted(sorted.drop_last(), e);
        lemma_insert_entry_multiset(sorted.drop_last(), e);
        let r0 = insert_entry(sorted.drop_last(), e);
        assert forall|i: int, j: int| 0 <= i < j < r.len() implies r[i].1 >= r[j].1 by {
            if j == r.len() - 1 {
                assert(r[j] == sorted.last());
                assert(r0.contains(r0[i]));
                assert(r0.to_multiset().count(r0[i]) > 0);
                if sorted.drop_last().to_multiset().count(r0[i]) > 0 {
                    assert(sorted.drop_last().contains(r0[i]));
                    let w = choose|w: int|
                        0 <= w < sorted.drop_last().len() && sorted.drop_last()[w] == r0[i];
                    assert(sorted[w].1 >= sorted[sorted.len() - 1].1);
                } else {
                    assert(r0[i] == e);
                }
            }
        }
    }
}

/// The ranking order: the ranked entry list descends by count, so a
/// cut prefix is the set of highest counts.
pub proof fn lemma_sort_entries_desc_sorted(s: Seq<(i32, u64)>)
    ensures
        forall|i: int, j: int|
            0 <= i < j < sort_entries_desc(s).len() ==> sort_entries_desc(s)[i].1
                >= sort_entries_desc(s)[j].1,
    decreases s.len(),
{
    if s.len() > 0 {
        lemma_sort_entries_desc_sorted(s.drop_last());
        lemma_insert_entry_sorted(sort_entries_desc(s.drop_last()), s.last());
    }
}

/// Sorts count entries by descending count, stably.
fn sort_entries_desc_exec(v: &Vec<(i32, u64)>) -> (r: Vec<(i32, u64)>)
    ensures
        r@ == sort_entries_desc(v@),
{
    let n = v.len();
    let mut sorted: Vec<(i32, u64)> = Vec::new();
    let mut i: usize = 0;
    proof {
        assert(v@.take(0) =~= Seq::<(i32, u64)>::empty());
    }
    while i < n
        invariant
            i <= n,
            n == v@.len(),
            sorted@ == sort_entries_desc(v@.take(i as int)),
        decreases n - i,
    {
        let e = v[i];
        let ghost prev_sorted = sorted@;
        let mut j: usize = sorted.len();
        loop
            invariant
                0 <= j <= sorted@.len(),
                sorted@ == prev_sorted,
                forall|k: int| j <= k < sorted@.len() ==> (#[trigger] sorted@[k]).1 < e.1,
            ensures
                0 <= j <= sorted@.len(),
                sorted@ == prev_sorted,
                forall|k: int| j <= k < sorted@.len() ==> (#[trigger] sorted@[k]).1 < e.1,
                j > 0 ==> sorted@[j - 1].1 >= e.1,
            decreases j,
        {
            if j == 0 {
                break;
            }
            if sorted[j - 1].1 >= e.1 {
                break;
            }
            j = j - 1;
        }
        sorted.insert(j, e);
        proof {
            lemma_insert_entry_at(prev_sorted, e, j as int);
            assert(v@.take(i + 1).drop_last() =~= v@.take(i as int));
            assert(v@.take(i + 1).last() == v@[i as int]);
        }
        i = i + 1;
    }
    proof {
        assert(v@.take(n as int) =~= v@);
    }
    sorted
}

/// The ranked entries a top-events table shows: all entries ordered
/// by descending count, cut to the highest twenty-one.
pub open spec fn top_entries(entries: Seq<(i32, u64)>) -> Seq<(i32, u64)> {
    let d = sort_entries_desc(entries);
    if d.len() > 21 {
        d.take(21)
    } else {
        d
    }
}

/// The three columns of a top-events table.
pub open spec fn top_cols_ok(cols: Seq<Column>) -> bool {
    &&& cols.len() == 3
    &&& cols[0].title@ == "pid"@ && cols[0].width == 8
    &&& cols[1].title@ == "comm"@ && cols[1].width == 16
    &&& cols[2].title@ == "wakeups"@ && cols[2].width == 10
}

/// One table row per ranked entry: the thread id, its resolved name,
/// and its count.
pub open spec fn top_rows_match(
    rows: Seq<Seq<Data>>,
    ents: Seq<(i32, u64)>,
    curr: ProcessDataSnapshot,
) -> bool {
    &&& rows.len() == ents.len()
    &&& forall|k: int|
        0 <= k < rows.len() ==> {
            &&& (#[trigger] rows[k]).len() == 3
            &&& rows[k][0] == Data::Int(ents[k].0 as i64)
            &&& (rows[k][1] matches Data::Text(s) && s@ == name_chars(curr, ents[k].0))
            &&& rows[k][2] == Data::UInt(ents[k].1)
        }
}

/// What a rendered top-events table is: the fixed three columns over
/// the ranked entries' rows, displayed ascending by count.
pub open spec fn is_top_events_text(
    s: Seq<char>,
    entries: Seq<(i32, u64)>,
    curr: ProcessDataSnapshot,
) -> bool {
    exists|cols: Seq<Column>, rows: Seq<Seq<Data>>|
        {
            &&& top_cols_ok(cols)
            &&& top_rows_match(rows, top_entries(entries), curr)
            &&& s == render_chars(cols, sort_rows(rows, 2), 0)
        }
}

/// Renders one category's per-thread counts: the highest twenty-one
/// counts, one row per thread with its resolved name, displayed
/// ascending by count.
pub fn print_top_events(map: &CountMap, curr: &ProcessDataSnapshot) -> (r: String)
    requires
        curr.wf(),
    ensures
        is_top_events_text(r@, map.entries@, *curr),
{
    let mut cols: Vec<Column> = Vec::new();
    cols.push(Column { title: String::from_str("pid"), width: 8 });
    cols.push(Column { title: String::from_str("comm"), width: 16 });
    cols.push(Column { title: String::from_str("wakeups"), width: 10 });
    let mut table = Table::new(cols);
    table.sort_by = Some(2);

    let sorted = sort_entries_desc_exec(&map.entries);
    let ghost ents = top_entries(map.entries@);
    let limit: usize = if sorted.len() > 21 {
        21
    } else {
        sorted.len()
    };
    proof {
        assert(ents =~= sorted@.take(limit as int));
        assert(row_views(table.data@) =~= Seq::<Seq<Data>>::empty());
    }
    let mut k: usize = 0;
    while k < limit
        invariant
            k <= limit,
            limit <= sorted@.len(),
            ents == sorted@.take(limit as int),
            curr.wf(),
            table.wf(),
            table.columns@.len() == 3,
            top_cols_ok(table.columns@),
            table.sort_by == Some(2usize),
            table.filter_by == None::<usize>,
            table.top == None::<usize>,
            table.data@.len() == k,
            top_rows_match(row_views(table.data@), ents.take(k as int), *curr),
            forall|r0: int|
                0 <= r0 < table.data@.len() ==> {
                    &&& (#[trigger] table.data@[r0])@.len() == 3
                    &&& table.data@[r0]@[0] is Int
                    &&& table.data@[r0]@[1] is Text
                    &&& table.data@[r0]@[2] is UInt
                },
        decreases limit - k,
    {
        let e = sorted[k];
        let mut row: Vec<Data> = Vec::new();
        row.push(Data::Int(e.0 as i64));
        row.push(Data::Text(name_of(curr, e.0)));
        row.push(Data::UInt(e.1));
        proof {
            assert forall|r0: int, j: int|
                0 <= r0 < table.data@.len() && 0 <= j < table.columns@.len() implies
                crate::output::same_variant(#[trigger] table.data@[r0][j], row@[j]) by {
                assert(table.data@[r0][j] == table.data@[r0]@[j]);
            }
        }
        let ghost pre = table.data@;
        let ok = table.add_row(row);
        proof {
            assert(ok);
            assert(row_views(table.data@) =~= row_views(pre).push(row@));
            assert(ents.take(k + 1).drop_last() =~= ents.take(k as int));
            assert forall|r0: int| 0 <= r0 < table.data@.len() implies {
                &&& (#[trigger] table.data@[r0])@.len() == 3
                &&& table.data@[r0]@[0] is Int
                &&& table.data@[r0]@[1] is Text
                &&& table.data@[r0]@[2] is UInt
            } by {
                assert(row_views(table.data@)[r0] == table.data@[r0]@);
                if r0 < pre.len() {
                    assert(row_views(pre)[r0] == pre[r0]@);
                    assert(table.data@[r0]@ == pre[r0]@);
                } else {
                    assert(table.data@[r0]@ == row@);
                }
            }
            assert(top_rows_match(row_views(table.data@), ents.take(k + 1), *curr));
        }
        k = k + 1;
    }
    proof {
        assert(ents.take(limit as int) =~= ents);
    }
    let ghost built = row_views(table.data@);
    let out = table.display_table();
    proof {
        assert(top_cols_ok(table.columns@));
        assert(out@ == render_chars(table.columns@, sort_rows(built, 2), 0));
    }
    out
}

/// Which line a line list shows at a position: past its end, a blank.
pub open spec fn line_at(l: Seq<Seq<char>>, i: int) -> Seq<char> {
    if 0 <= i < l.len() {
        l[i]
    } else {
        Seq::<char>::empty()
    }
}

/// The first `n` paired lines of a side-by-side layout: each side
/// centered to the layout width, two spaces between, one per line.
pub open spec fn paired_lines(l1: Seq<Seq<char>>, l2: Seq<Seq<char>>, w: int, n: int) -> Seq<char>
    decreases n,
{
    if n <= 0 {
        Seq::<char>::empty()
    } else {
        paired_lines(l1, l2, w, n - 1) + text::centered(line_at(l1, n - 1), w) + "  "@
            + text::centered(line_at(l2, n - 1), w) + "\n"@
    }
}

/// A side-by-side layout of two rendered tables: a centered title
/// line, the tables' lines paired up, and a blank line after. The
/// layout width is the first table's separator line.
pub open spec fn two_tables_chars(
    t1: Seq<char>,
    s1: Seq<char>,
    t2: Seq<char>,
    s2: Seq<char>,
) -> Seq<char> {
    let l1 = text::spec_lines(s1);
    let l2 = text::spec_lines(s2);
    let w: int = if l1.len() >= 2 {
        l1[1].len() as int
    } else {
        0
    };
    let n: int = if l1.len() >= l2.len() {
        l1.len() as int
    } else {
        l2.len() as int
    };
    text::centered(t1, w) + "  "@ + text::centered(t2, w) + "\n"@ + paired_lines(l1, l2, w, n)
        + "\n"@
}

/// Lays two rendered tables out side by side under their titles.
#[verifier::rlimit(100)]
pub fn print_2tables(title1: &str, table1: &str, title2: &str, table2: &str) -> (r: String)
    ensures
        r@ == two_tables_chars(title1@, table1@, title2@, table2@),
{
    let l1 = text::split_lines(table1);
    let l2 = text::split_lines(table2);
    let w: usize = if l1.len() >= 2 {
        l1[1].as_str().unicode_len()
    } else {
        0
    };
    let n: usize = if l1.len() >= l2.len() {
        l1.len()
    } else {
        l2.len()
    };
    let mut out = String::new();
    text::push_centered(&mut out, title1, w);
    out.append("  ");
    text::push_centered(&mut out, title2, w);
    out.append("\n");
    proof {
        assert(l1@.len() >= 2 ==> text::views_of(l1@)[1] == l1@[1]@);
    }
    let mut i: usize = 0;
    while i < n
        invariant
            i <= n,
            text::views_of(l1@) == text::spec_lines(table1@),
            text::views_of(l2@) == text::spec_lines(table2@),
            w as int == ({
                let lv = text::spec_lines(table1@);
                if lv.len() >= 2 {
                    lv[1].len() as int
                } else {
                    0
                }
            }),
            n as int == ({
                let v1 = text::spec_lines(table1@);
                let v2 = text::spec_lines(table2@);
                if v1.len() >= v2.len() {
                    v1.len() as int
                } else {
                    v2.len() as int
                }
            }),
            out@ == text::centered(title1@, w as int) + "  "@ + text::centered(title2@, w as int)
                + "\n"@ + paired_lines(
                text::spec_lines(table1@),
                text::spec_lines(table2@),
                w as int,
                i as int,
            ),
        decreases n - i,
    {
        proof {
            reveal_strlit("");
        }
        if i < l1.len() {
            text::push_centered(&mut out, l1[i].as_str(), w);
            proof {
                assert(l1@[i as int]@ == line_at(text::spec_lines(table1@), i as int));
            }
        } else {
            text::push_centered(&mut out, "", w);
            proof {
                assert(""@ =~= line_at(text::spec_lines(table1@), i as int));
            }
        }
        out.append("  ");
        if i < l2.len() {
            text::push_centered(&mut out, l2[i].as_str(), w);
            proof {
                assert(l2@[i as int]@ == line_at(text::spec_lines(table2@), i as int));
            }
        } else {
            text::push_centered(&mut out, "", w);
            proof {
                assert(""@ =~= line_at(text::spec_lines(table2@), i as int));
            }
        }
        out.append("\n");
        i = i + 1;
        proof {
            assert(out@ =~= text::centered(title1@, w as int) + "  "@ + text::centered(
                title2@,
                w as int,
            ) + "\n"@ + paired_lines(
                text::spec_lines(table1@),
                text::spec_lines(table2@),
                w as int,
                i as int,
            ));
        }
    }
    out.append("\n");
    proof {
        assert(out@ =~= two_tables_chars(title1@, table1@, title2@, table2@));
    }
    out
}

/// Classifies a window's wakeup edges against the observed process
/// and renders the four ranked tables: external inputs beside
/// external outputs, then internal wakees beside internal wakers.
pub fn print_wakeups(wakeups: &Vec<WakeupEdge>, curr: &ProcessDataSnapshot) -> (r: String)
    requires
        curr.wf(),
        edges_wf(wakeups@, curr.pid),
        total_count(wakeups@, wakeups@.len() as int) <= u64::MAX,
    ensures
        exists|s_in: Seq<char>, s_out: Seq<char>, s_wakers: Seq<char>, s_wakees: Seq<char>|
            {
                &&& is_top_events_text(
                    s_in,
                    classify_fold(wakeups@, curr.pid, wakeups@.len() as int).0,
                    *curr,
                )
                &&& is_top_events_text(
                    s_out,
                    classify_fold(wakeups@, curr.pid, wakeups@.len() as int).1,
                    *curr,
                )
                &&& is_top_events_text(
                    s_wakers,
                    classify_fold(wakeups@, curr.pid, wakeups@.len() as int).2,
                    *curr,
                )
                &&& is_top_events_text(
                    s_wakees,
                    classify_fold(wakeups@, curr.pid, wakeups@.len() as int).3,
                    *curr,
                )
                &&& r@ == two_tables_chars("top inputs"@, s_in, "top outputs"@, s_out)
                    + two_tables_chars("top wakees"@, s_wakees, "top wakers"@, s_wakers)
            },
{
    let report = classify_wakeups(wakeups, curr.pid);
    let inputs = print_top_events(&report.inputs, curr);
    let outputs = print_top_events(&report.outputs, curr);
    let wakers = print_top_events(&report.wakers, curr);
    let wakees = print_top_events(&report.wakees, curr);

    let mut out = print_2tables("top inputs", inputs.as_str(), "top outputs", outputs.as_str());
    let second = print_2tables("top wakees", wakees.as_str(), "top wakers", wakers.as_str());
    out.append(second.as_str());
    out
}

} // verus!
