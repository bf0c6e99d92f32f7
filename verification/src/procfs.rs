//! Parsers for the textual counter interfaces the OS exposes per
//! process, per thread, and for the whole system. Each reader takes
//! the file's text and yields the counters, or nothing when the text
//! is not in the expected shape — a vanished thread's unreadable file
//! is "unavailable this cycle", never fatal.

use vstd::prelude::*;
use crate::text;

verus! {

/// Whole-system cumulative CPU ticks since boot, ten categories.
pub struct StatData {
    pub user: u64,
    pub nice: u64,
    pub system: u64,
    pub idle: u64,
    pub iowait: u64,
    pub irq: u64,
    pub softirq: u64,
    pub steal: u64,
    pub guest: u64,
    pub guest_nice: u64,
}

/// Cumulative user and system CPU ticks of one process or thread.
pub struct ProcStatData {
    pub utime: u64,
    pub stime: u64,
}

/// Display name and context-switch counters of one thread.
pub struct ProcStatusData {
    pub name: String,
    pub vctxsw: u64,
    pub ivctxsw: u64,
}

/// Cumulative scheduling counters of one thread: time on CPU, time
/// runnable but waiting, and the number of run slices dispatched.
pub struct ProcSchedstatData {
    pub on_cpu: u64,
    pub waiting_for_cpu: u64,
    pub slices: u64,
}

/// What the whole-system counter text parses to: the first line must
/// carry a label and ten numeric fields.
pub open spec fn spec_read_stat(s: Seq<char>) -> Option<StatData> {
    let ls = text::spec_lines(s);
    if ls.len() == 0 {
        None
    } else {
        let toks = text::spec_tokens(ls[0]);
        if toks.len() >= 11 && text::spec_parse_u64(toks[1]) is Some && text::spec_parse_u64(
            toks[2],
        ) is Some && text::spec_parse_u64(toks[3]) is Some && text::spec_parse_u64(toks[4]) is Some
            && text::spec_parse_u64(toks[5]) is Some && text::spec_parse_u64(toks[6]) is Some
            && text::spec_parse_u64(toks[7]) is Some && text::spec_parse_u64(toks[8]) is Some
            && text::spec_parse_u64(toks[9]) is Some && text::spec_parse_u64(toks[10]) is Some {
            Some(
                StatData {
                    user: text::spec_parse_u64(toks[1]).unwrap(),
                    nice: text::spec_parse_u64(toks[2]).unwrap(),
                    system: text::spec_parse_u64(toks[3]).unwrap(),
                    idle: text::spec_parse_u64(toks[4]).unwrap(),
                    iowait: text::spec_parse_u64(toks[5]).unwrap(),
                    irq: text::spec_parse_u64(toks[6]).unwrap(),
                    softirq: text::spec_parse_u64(toks[7]).unwrap(),
                    steal: text::spec_parse_u64(toks[8]).unwrap(),
                    guest: text::spec_parse_u64(toks[9]).unwrap(),
                    guest_nice: text::spec_parse_u64(toks[10]).unwrap(),
                },
            )
        } else {
            None
        }
    }
}

/// Parses the whole-system counter text: the first line, label first,
/// then the ten cumulative tick categories.
pub fn read_stat(raw: &str) -> (r: Option<StatData>)
    ensures
        (match r {
            Some(d) => spec_read_stat(raw@) == Some(d),
            None => spec_read_stat(raw@) is None,
        }),
{
    let lines = text::split_lines(raw);
    if lines.len() == 0 {
        return None;
    }
    let toks = text::split_ws(lines[0].as_str());
    if toks.len() < 11 {
        return None;
    }
    let user = match text::parse_u64(toks[1].as_str()) {
        Some(v) => v,
        None => {
            return None;
        },
    };
    let nice = match text::parse_u64(toks[2].as_str()) {
        Some(v) => v,
        None => {
            return None;
        },
    };
    let system = match text::parse_u64(toks[3].as_str()) {
        Some(v) => v,
        None => {
            return None;
        },
    };
    let idle = match text::parse_u64(toks[4].as_str()) {
        Some(v) => v,
        None => {
            return None;
        },
    };
    let iowait = match text::parse_u64(toks[5].as_str()) {
        Some(v) => v,
        None => {
            return None;
        },
    };
    let irq = match text::parse_u64(toks[6].as_str()) {
        Some(v) => v,
        None => {
            return None;
        },
    };
    let softirq = match text::parse_u64(toks[7].as_str()) {
        Some(v) => v,
        None => {
            return None;
        },
    };
    let steal = match text::parse_u64(toks[8].as_str()) {
        Some(v) => v,
        None => {
            return None;
        },
    };
    let guest = match text::parse_u64(toks[9].as_str()) {
        Some(v) => v,
        None => {
            return None;
        },
    };
    let guest_nice = match text::parse_u64(toks[10].as_str()) {
        Some(v) => v,
        None => {
            return None;
        },
    };
    Some(
        StatData {
            user,
            nice,
            system,
            idle,
            iowait,
            irq,
            softirq,
            steal,
            guest,
            guest_nice,
        },
    )
}

/// What a per-task counter line parses to: the fourteenth and
/// fifteenth whitespace-separated fields are the user and system
/// ticks.
pub open spec fn spec_read_proc_stat(s: Seq<char>) -> Option<ProcStatData> {
    let toks = text::spec_tokens(s);
    if toks.len() >= 15 && text::spec_parse_u64(toks[13]) is Some && text::spec_parse_u64(
        toks[14],
    ) is Some {
        Some(
            ProcStatData {
                utime: text::spec_parse_u64(toks[13]).unwrap(),
                stime: text::spec_parse_u64(toks[14]).unwrap(),
            },
        )
    } else {
        None
    }
}

/// Parses the per-process counter text for user and system ticks.
pub fn read_proc_stat(raw: &str) -> (r: Option<ProcStatData>)
    ensures
        (match r {
            Some(d) => spec_read_proc_stat(raw@) == Some(d),
            None => spec_read_proc_stat(raw@) is None,
        }),
{
    let toks = text::split_ws(raw);
    if toks.len() < 15 {
        return None;
    }
    let utime = match text::parse_u64(toks[13].as_str()) {
        Some(v) => v,
        None => {
            return None;
        },
    };
    let stime = match text::parse_u64(toks[14].as_str()) {
        Some(v) => v,
        None => {
            return None;
        },
    };
    Some(ProcStatData { utime, stime })
}

/// Parses a thread's counter text; the per-thread file has the same
/// shape as the per-process one.
pub fn read_thread_stat(raw: &str) -> (r: Option<ProcStatData>)
    ensures
        (match r {
            Some(d) => spec_read_proc_stat(raw@) == Some(d),
            None => spec_read_proc_stat(raw@) is None,
        }),
{
    read_proc_stat(raw)
}

/// What the scheduling-counter text parses to: three numeric fields.
pub open spec fn spec_read_proc_schedstat(s: Seq<char>) -> Option<ProcSchedstatData> {
    let toks = text::spec_tokens(s);
    if toks.len() >= 3 && text::spec_parse_u64(toks[0]) is Some && text::spec_parse_u64(
        toks[1],
    ) is Some && text::spec_parse_u64(toks[2]) is Some {
        Some(
            ProcSchedstatData {
                on_cpu: text::spec_parse_u64(toks[0]).unwrap(),
                waiting_for_cpu: text::spec_parse_u64(toks[1]).unwrap(),
                slices: text::spec_parse_u64(toks[2]).unwrap(),
            },
        )
    } else {
        None
    }
}

/// Parses a thread's scheduling-counter text: nanoseconds on CPU,
/// nanoseconds waiting for CPU, run slices dispatched.
pub fn read_proc_schedstat(raw: &str) -> (r: Option<ProcSchedstatData>)
    ensures
        (match r {
            Some(d) => spec_read_proc_schedstat(raw@) == Some(d),
            None => spec_read_proc_schedstat(raw@) is None,
        }),
{
    let toks = text::split_ws(raw);
    if toks.len() < 3 {
        return None;
    }
    let on_cpu = match text::parse_u64(toks[0].as_str()) {
        Some(v) => v,
        None => {
            return None;
        },
    };
    let waiting_for_cpu = match text::parse_u64(toks[1].as_str()) {
        Some(v) => v,
        None => {
            return None;
        },
    };
    let slices = match text::parse_u64(toks[2].as_str()) {
        Some(v) => v,
        None => {
            return None;
        },
    };
    Some(ProcSchedstatData { on_cpu, waiting_for_cpu, slices })
}

/// Effect of one line of the status text on the accumulated (name,
/// voluntary, involuntary) triple; a recognized line that lacks its
/// value makes the whole text unreadable.
pub open spec fn spec_status_step(acc: (Seq<char>, u64, u64), line: Seq<char>) -> Option<
    (Seq<char>, u64, u64),
> {
    if "Name:"@.is_prefix_of(line) {
        let toks = text::spec_tokens(line);
        if toks.len() >= 2 {
            Some((toks[1], acc.1, acc.2))
        } else {
            None
        }
    } else if "voluntary_ctxt_switches:"@.is_prefix_of(line) {
        let toks = text::spec_tokens(line);
        if toks.len() >= 2 && text::spec_parse_u64(toks[1]) is Some {
            Some((acc.0, text::spec_parse_u64(toks[1]).unwrap(), acc.2))
        } else {
            None
        }
    } else if "nonvoluntary_ctxt_switches:"@.is_prefix_of(line) {
        let toks = text::spec_tokens(line);
        if toks.len() >= 2 && text::spec_parse_u64(toks[1]) is Some {
            Some((acc.0, acc.1, text::spec_parse_u64(toks[1]).unwrap()))
        } else {
            None
        }
    } else {
        Some(acc)
    }
}

/// The status text folded line by line over the first `n` lines,
/// starting from an empty name and zero counters.
pub open spec fn spec_status_fold(lines: Seq<Seq<char>>, n: int) -> Option<(Seq<char>, u64, u64)>
    decreases n,
{
    if n <= 0 {
        Some((Seq::<char>::empty(), 0u64, 0u64))
    } else {
        match spec_status_fold(lines, n - 1) {
            None => None,
            Some(acc) => spec_status_step(acc, lines[n - 1]),
        }
    }
}

/// What the whole status text parses to.
pub open spec fn spec_read_proc_status(s: Seq<char>) -> Option<(Seq<char>, u64, u64)> {
    spec_status_fold(text::spec_lines(s), text::spec_lines(s).len() as int)
}

proof fn lemma_status_fold_none(lines: Seq<Seq<char>>, n: int, m: int)
    requires
        0 <= n <= m,
        spec_status_fold(lines, n) is None,
    ensures
        spec_status_fold(lines, m) is None,
    decreases m - n,
{
    if n < m {
        lemma_status_fold_none(lines, n + 1, m);
    }
}

/// Parses a thread's status text: the display name and the voluntary
/// and involuntary context-switch counters, later lines winning.
pub fn read_proc_status(raw: &str) -> (r: Option<ProcStatusData>)
    ensures
        (match r {
            Some(d) => spec_read_proc_status(raw@) == Some((d.name@, d.vctxsw, d.ivctxsw)),
            None => spec_read_proc_status(raw@) is None,
        }),
{
    let lines = text::split_lines(raw);
    let ghost lviews = text::spec_lines(raw@);
    let mut name = String::new();
    let mut vctxsw: u64 = 0;
    let mut ivctxsw: u64 = 0;
    let nlines = lines.len();
    let mut i: usize = 0;
    while i < nlines
        invariant
            i <= nlines,
            nlines == lines@.len(),
            text::views_of(lines@) == lviews,
            lviews == text::spec_lines(raw@),
            spec_status_fold(lviews, i as int) == Some((name@, vctxsw, ivctxsw)),
        decreases nlines - i,
    {
        let line = lines[i].as_str();
        proof {
            assert(line@ == lviews[i as int]);
        }
        if text::str_starts_with(line, "Name:") {
            let toks = text::split_ws(line);
            if toks.len() < 2 {
                proof {
                    lemma_status_fold_none(lviews, i + 1, lviews.len() as int);
                }
                return None;
            }
            name = toks[1].clone();
        } else if text::str_starts_with(line, "voluntary_ctxt_switches:") {
            let toks = text::split_ws(line);
            if toks.len() < 2 {
                proof {
                    lemma_status_fold_none(lviews, i + 1, lviews.len() as int);
                }
                return None;
            }
            match text::parse_u64(toks[1].as_str()) {
                Some(v) => {
                    vctxsw = v;
                },
                None => {
                    proof {
                        lemma_status_fold_none(lviews, i + 1, lviews.len() as int);
                    }
                    return None;
                },
            }
        } else if text::str_starts_with(line, "nonvoluntary_ctxt_switches:") {
            let toks = text::split_ws(line);
            if toks.len() < 2 {
                proof {
                    lemma_status_fold_none(lviews, i + 1, lviews.len() as int);
                }
                return None;
            }
            match text::parse_u64(toks[1].as_str()) {
                Some(v) => {
                    ivctxsw = v;
                },
                None => {
                    proof {
                        lemma_status_fold_none(lviews, i + 1, lviews.len() as int);
                    }
                    return None;
                },
            }
        }
        i = i + 1;
    }
    Some(ProcStatusData { name, vctxsw, ivctxsw })
}

} // verus!
