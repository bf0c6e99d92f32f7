//! The kernel event feed's record stream as the core consumes it:
//! decoding of the binary records and accumulation of wakeup edges
//! and run-slice samples over one collection window.

use vstd::prelude::*;
use crate::slice::slice_views;
use crate::wakeup::{spec_pid, tgidpid_pid, WakeupEdge};

verus! {

/// One decoded record: a wakeup edge between two packed identifiers,
/// or one measured run slice of a thread.
pub enum Event {
    Wakeup { src: u64, tgt: u64 },
    RunSlice { pid: i32, duration: u64 },
}

/// The little-endian 64-bit value whose eight bytes start at `off`.
pub open spec fn le64_at(s: Seq<u8>, off: int) -> int
    recommends
        0 <= off,
        off + 8 <= s.len(),
{
    s[off] + s[off + 1] * 0x100 + s[off + 2] * 0x1_0000 + s[off + 3] * 0x100_0000 + s[off + 4]
        * 0x1_0000_0000 + s[off + 5] * 0x100_0000_0000 + s[off + 6] * 0x1_0000_0000_0000 + s[off
        + 7] * 0x100_0000_0000_0000
}

/// The little-endian 32-bit value whose four bytes start at `off`.
pub open spec fn le32_at(s: Seq<u8>, off: int) -> int
    recommends
        0 <= off,
        off + 4 <= s.len(),
{
    s[off] + s[off + 1] * 0x100 + s[off + 2] * 0x1_0000 + s[off + 3] * 0x100_0000
}

/// Reads the little-endian 64-bit field at `off`.
fn read_le64(data: &[u8], off: usize) -> (r: u64)
    requires
        off + 8 <= data@.len(),
    ensures
        r == le64_at(data@, off as int),
{
    (data[off] as u64) + (data[off + 1] as u64) * 0x100 + (data[off + 2] as u64) * 0x1_0000 + (
    data[off + 3] as u64) * 0x100_0000 + (data[off + 4] as u64) * 0x1_0000_0000 + (data[off
        + 5] as u64) * 0x100_0000_0000 + (data[off + 6] as u64) * 0x1_0000_0000_0000 + (data[off
        + 7] as u64) * 0x100_0000_0000_0000
}

/// Reads the little-endian 32-bit field at `off`.
fn read_le32(data: &[u8], off: usize) -> (r: u32)
    requires
        off + 4 <= data@.len(),
    ensures
        r == le32_at(data@, off as int),
{
    (data[off] as u32) + (data[off + 1] as u32) * 0x100 + (data[off + 2] as u32) * 0x1_0000 + (
    data[off + 3] as u32) * 0x100_0000
}

/// What a raw record decodes to: twenty bytes, the two packed
/// identifiers first, then the record kind. A short record or an
/// unknown kind decodes to nothing and is dropped.
pub open spec fn spec_decode(s: Seq<u8>) -> Option<Event> {
    if s.len() < 20 {
        None
    } else {
        let kind = le32_at(s, 16);
        if kind == 0 {
            Some(Event::Wakeup { src: le64_at(s, 0) as u64, tgt: le64_at(s, 8) as u64 })
        } else if kind == 1 {
            Some(
                Event::RunSlice {
                    pid: spec_pid(le64_at(s, 0) as u64),
                    duration: le64_at(s, 8) as u64,
                },
            )
        } else {
            None
        }
    }
}

/// Decodes one raw record of the event stream.
pub fn decode_event(data: &[u8]) -> (r: Option<Event>)
    ensures
        r == spec_decode(data@),
{
    if data.len() < 20 {
        return None;
    }
    let kind = read_le32(data, 16);
    if kind == 0 {
        Some(Event::Wakeup { src: read_le64(data, 0), tgt: read_le64(data, 8) })
    } else if kind == 1 {
        Some(Event::RunSlice { pid: tgidpid_pid(read_le64(data, 0)), duration: read_le64(data, 8) })
    } else {
        None
    }
}

/// The count an edge list holds for one (source, target) pair.
pub open spec fn count_edge(s: Seq<WakeupEdge>, src: u64, tgt: u64) -> int
    decreases s.len(),
{
    if s.len() == 0 {
        0
    } else if s[0].src == src && s[0].tgt == tgt {
        s[0].count as int
    } else {
        count_edge(s.drop_first(), src, tgt)
    }
}

/// An edge list after observing one more occurrence of an edge: its
/// count bumped in place, saturating at the counter's top, or a new
/// entry appended.
pub open spec fn spec_record_wakeup(s: Seq<WakeupEdge>, src: u64, tgt: u64) -> Seq<WakeupEdge>
    decreases s.len(),
{
    if s.len() == 0 {
        seq![WakeupEdge { src, tgt, count: 1u64 }]
    } else if s[0].src == src && s[0].tgt == tgt {
        seq![
            WakeupEdge {
                src,
                tgt,
                count: if s[0].count < u64::MAX {
                    (s[0].count + 1) as u64
                } else {
                    u64::MAX
                },
            },
        ] + s.drop_first()
    } else {
        seq![s[0]] + spec_record_wakeup(s.drop_first(), src, tgt)
    }
}

/// The wakeup-edge multiset of one collection window, keyed uniquely
/// by (source, target) in first-observation order.
pub struct Wakeups {
    pub edges: Vec<WakeupEdge>,
}

impl Wakeups {
    /// Each (source, target) pair appears at most once.
    pub open spec fn wf(self) -> bool {
        forall|i: int, j: int|
            0 <= i < j < self.edges@.len() ==> ((#[trigger] self.edges@[i]).src != (
            #[trigger] self.edges@[j]).src || self.edges@[i].tgt != self.edges@[j].tgt)
    }

    /// A fresh, empty edge multiset.
    pub fn new() -> (r: Wakeups)
        ensures
            r.edges@ =~= Seq::<WakeupEdge>::empty(),
            r.wf(),
    {
        Wakeups { edges: Vec::new() }
    }

    /// Counts one more occurrence of an edge.
    #[verifier::rlimit(60)]
    pub fn record(&mut self, src: u64, tgt: u64)
        requires
            old(self).wf(),
        ensures
            final(self).edges@ == spec_record_wakeup(old(self).edges@, src, tgt),
            final(self).wf(),
    {
        let ghost orig = self.edges@;
        let n = self.edges.len();
        let mut k: usize = 0;
        proof {
            assert(orig.skip(0) =~= orig);
            assert(orig.take(0) =~= Seq::<WakeupEdge>::empty());
            assert(spec_record_wakeup(orig, src, tgt) =~= orig.take(0) + spec_record_wakeup(
                orig.skip(0),
                src,
                tgt,
            ));
        }
        while k < n
            invariant
                k <= n,
                n == self.edges@.len(),
                self.edges@ == orig,
                orig == old(self).edges@,
                forall|i: int, j: int|
                    0 <= i < j < orig.len() ==> ((#[trigger] orig[i]).src != (
                    #[trigger] orig[j]).src || orig[i].tgt != orig[j].tgt),
                forall|j: int|
                    0 <= j < k ==> ((#[trigger] orig[j]).src != src || orig[j].tgt != tgt),
                spec_record_wakeup(orig, src, tgt) =~= orig.take(k as int) + spec_record_wakeup(
                    orig.skip(k as int),
                    src,
                    tgt,
                ),
            decreases n - k,
        {
            let e_src = self.edges[k].src;
            let e_tgt = self.edges[k].tgt;
            let e_count = self.edges[k].count;
            if e_src == src && e_tgt == tgt {
                proof {
                    assert(orig.skip(k as int)[0] == orig[k as int]);
                }
                let new_count: u64 = if e_count < u64::MAX {
                    e_count + 1
                } else {
                    u64::MAX
                };
                self.edges[k] = WakeupEdge { src, tgt, count: new_count };
                proof {
                    let t = orig.skip(k as int);
                    assert(seq![self.edges@[k as int]] + t.drop_first() =~= self.edges@.skip(
                        k as int,
                    ));
                    assert(self.edges@ =~= orig.take(k as int) + self.edges@.skip(k as int));
                    assert(self.edges@ =~= spec_record_wakeup(orig, src, tgt));
                    assert forall|i: int, j: int|
                        0 <= i < j < self.edges@.len() implies ((#[trigger] self.edges@[i]).src
                        != (#[trigger] self.edges@[j]).src || self.edges@[i].tgt
                        != self.edges@[j].tgt) by {
                        assert(self.edges@[i].src == orig[i].src && self.edges@[i].tgt
                            == orig[i].tgt);
                        assert(self.edges@[j].src == orig[j].src && self.edges@[j].tgt
                            == orig[j].tgt);
                    }
                }
                return ;
            }
            proof {
                let t = orig.skip(k as int);
                assert(t[0] == orig[k as int]);
                assert(t.drop_first() =~= orig.skip(k + 1));
                assert(spec_record_wakeup(t, src, tgt) =~= seq![t[0]] + spec_record_wakeup(
                    t.drop_first(),
                    src,
                    tgt,
                ));
                assert(orig.take(k as int) + spec_record_wakeup(orig.skip(k as int), src, tgt)
                    =~= orig.take(k + 1) + spec_record_wakeup(orig.skip(k + 1), src, tgt));
            }
            k = k + 1;
        }
        proof {
            assert(orig.skip(n as int) =~= Seq::<WakeupEdge>::empty());
        }
        self.edges.push(WakeupEdge { src, tgt, count: 1 });
        proof {
            assert(self.edges@ =~= orig.take(n as int) + seq![
                WakeupEdge { src, tgt, count: 1u64 },
            ]);
            assert(self.edges@ =~= spec_record_wakeup(orig, src, tgt));
            assert forall|i: int, j: int|
                0 <= i < j < self.edges@.len() implies ((#[trigger] self.edges@[i]).src != (
            #[trigger] self.edges@[j]).src || self.edges@[i].tgt != self.edges@[j].tgt) by {
                if j == self.edges@.len() - 1 {
                    assert(self.edges@[i] == orig[i]);
                }
            }
        }
    }
}

/// A sample map after appending one run-slice duration to a thread's
/// list, or opening a new list for a first-seen thread.
pub open spec fn spec_record_slice(s: Seq<(i32, Seq<u64>)>, pid: i32, d: u64) -> Seq<
    (i32, Seq<u64>),
>
    decreases s.len(),
{
    if s.len() == 0 {
        seq![(pid, seq![d])]
    } else if s[0].0 == pid {
        seq![(pid, s[0].1.push(d))] + s.drop_first()
    } else {
        seq![s[0]] + spec_record_slice(s.drop_first(), pid, d)
    }
}

/// The run-slice samples of one collection window: one growing
/// duration list per thread id, in first-observation order.
pub struct Slices {
    pub entries: Vec<(i32, Vec<u64>)>,
}

impl Slices {
    /// Each thread id appears at most once.
    pub open spec fn wf(self) -> bool {
        forall|i: int, j: int|
            0 <= i < j < self.entries@.len() ==> (#[trigger] self.entries@[i]).0 != (
            #[trigger] self.entries@[j]).0
    }

    /// A fresh, empty sample map.
    pub fn new() -> (r: Slices)
        ensures
            r.entries@ =~= Seq::<(i32, Vec<u64>)>::empty(),
            r.wf(),
    {
        Slices { entries: Vec::new() }
    }

    /// Appends one measured duration to a thread's sample list.
    #[verifier::rlimit(60)]
    pub fn record(&mut self, pid: i32, d: u64)
        requires
            old(self).wf(),
        ensures
            slice_views(final(self).entries@) == spec_record_slice(
                slice_views(old(self).entries@),
                pid,
                d,
            ),
            final(self).wf(),
    {
        let ghost origv = slice_views(self.entries@);
        let n = self.entries.len();
        let mut k: usize = 0;
        proof {
            assert(origv.skip(0) =~= origv);
            assert(origv.take(0) =~= Seq::<(i32, Seq<u64>)>::empty());
            assert(spec_record_slice(origv, pid, d) =~= origv.take(0) + spec_record_slice(
                origv.skip(0),
                pid,
                d,
            ));
        }
        while k < n
            invariant
                k <= n,
                n == self.entries@.len(),
                slice_views(self.entries@) == origv,
                origv == slice_views(old(self).entries@),
                self.entries@ == old(self).entries@,
                forall|i: int, j: int|
                    0 <= i < j < origv.len() ==> (#[trigger] origv[i]).0 != (#[trigger] origv[j]).0,
                forall|j: int| 0 <= j < k ==> (#[trigger] origv[j]).0 != pid,
                spec_record_slice(origv, pid, d) =~= origv.take(k as int) + spec_record_slice(
                    origv.skip(k as int),
                    pid,
                    d,
                ),
            decreases n - k,
        {
            proof {
                assert(origv[k as int] == (self.entries@[k as int].0, self.entries@[k as int].1@));
            }
            if self.entries[k].0 == pid {
                self.entries[k].1.push(d);
                proof {
                    let t = origv.skip(k as int);
                    assert(t[0] == origv[k as int]);
                    assert(slice_views(self.entries@)[k as int] == (pid, origv[k as int].1.push(d)));
                    assert forall|m: int| 0 <= m < n && m != k as int implies #[trigger] slice_views(
                        self.entries@,
                    )[m] == origv[m] by {
                        assert(self.entries@[m] == old(self).entries@[m]);
                    }
                    assert(seq![(pid, t[0].1.push(d))] + t.drop_first() =~= slice_views(
                        self.entries@,
                    ).skip(k as int));
                    assert(slice_views(self.entries@) =~= origv.take(k as int) + slice_views(
                        self.entries@,
                    ).skip(k as int));
                    assert(slice_views(self.entries@) =~= spec_record_slice(origv, pid, d));
                    assert forall|i: int, j: int|
                        0 <= i < j < self.entries@.len() implies (#[trigger] self.entries@[i]).0
                        != (#[trigger] self.entries@[j]).0 by {
                        assert(self.entries@[i].0 == origv[i].0);
                        assert(self.entries@[j].0 == origv[j].0);
                    }
                }
                return ;
            }
            proof {
                let t = origv.skip(k as int);
                assert(t[0] == origv[k as int]);
                assert(t.drop_first() =~= origv.skip(k + 1));
                assert(spec_record_slice(t, pid, d) =~= seq![t[0]] + spec_record_slice(
                    t.drop_first(),
                    pid,
                    d,
                ));
                assert(origv.take(k as int) + spec_record_slice(origv.skip(k as int), pid, d)
                    =~= origv.take(k + 1) + spec_record_slice(origv.skip(k + 1), pid, d));
            }
            k = k + 1;
        }
        proof {
            assert(origv.skip(n as int) =~= Seq::<(i32, Seq<u64>)>::empty());
        }
        let mut fresh: Vec<u64> = Vec::new();
        fresh.push(d);
        self.entries.push((pid, fresh));
        proof {
            assert(slice_views(self.entries@) =~= origv.take(n as int) + seq![
                (pid, seq![d]),
            ]);
            assert(slice_views(self.entries@) =~= spec_record_slice(origv, pid, d));
            assert forall|i: int, j: int|
                0 <= i < j < self.entries@.len() implies (#[trigger] self.entries@[i]).0 != (
            #[trigger] self.entries@[j]).0 by {
                if j == self.entries@.len() - 1 {
                    assert(self.entries@[i] == old(self).entries@[i]);
                    assert(origv[i].0 == self.entries@[i].0);
                }
            }
        }
    }
}

/// Consumes one raw record of the event stream: a wakeup record
/// counts its edge, a run-slice record appends its duration; a record
/// that does not decode is dropped.
pub fn handle_event(wakeups: &mut Wakeups, slices: &mut Slices, data: &[u8])
    requires
        old(wakeups).wf(),
        old(slices).wf(),
    ensures
        final(wakeups).wf(),
        final(slices).wf(),
        (match spec_decode(data@) {
            Some(Event::Wakeup { src, tgt }) => final(wakeups).edges@ == spec_record_wakeup(
                old(wakeups).edges@,
                src,
                tgt,
            ) && final(slices).entries@ == old(slices).entries@,
            Some(Event::RunSlice { pid, duration }) => final(wakeups).edges@ == old(
                wakeups,
            ).edges@ && slice_views(final(slices).entries@) == spec_record_slice(
                slice_views(old(slices).entries@),
                pid,
                duration,
            ),
            None => final(wakeups).edges@ == old(wakeups).edges@ && final(slices).entries@ == old(
                slices,
            ).entries@,
        }),
{
    match decode_event(data) {
        Some(Event::Wakeup { src, tgt }) => {
            wakeups.record(src, tgt);
        },
        Some(Event::RunSlice { pid, duration }) => {
            slices.record(pid, duration);
        },
        None => {},
    }
}

} // verus!
