//! Run-slice percentile summaries: per-thread duration samples are
//! sorted and read off at fixed percentile ranks, then rendered as a
//! ranked table.

use vstd::prelude::*;
use crate::output::{render_chars, row_views, sort_rows, Column, Data, Table};
use crate::snapshot::{name_chars, name_of, ProcessDataSnapshot};
use vstd::string::StringExecFns;

verus! {

/// Stable insertion into an ascending run of durations.
pub open spec fn insert_dur(sorted: Seq<u64>, d: u64) -> Seq<u64>
    decreases sorted.len(),
{
    if sorted.len() == 0 {
        seq![d]
    } else if sorted.last() <= d {
        sorted.push(d)
    } else {
        insert_dur(sorted.drop_last(), d).push(sorted.last())
    }
}

/// Ascending sort of a duration list.
pub open spec fn sort_durs(s: Seq<u64>) -> Seq<u64>
    decreases s.len(),
{
    if s.len() == 0 {
        Seq::<u64>::empty()
    } else {
        insert_dur(sort_durs(s.drop_last()), s.last())
    }
}

proof fn lemma_insert_dur_at(sorted: Seq<u64>, d: u64, j: int)
    requires
        0 <= j <= sorted.len(),
        forall|k: int| j <= k < sorted.len() ==> #[trigger] sorted[k] > d,
        j > 0 ==> sorted[j - 1] <= d,
    ensures
        insert_dur(sorted, d) =~= sorted.insert(j, d),
    decreases sorted.len(),
{
    if sorted.len() == 0 {
    } else if sorted.last() <= d {
        assert(j == sorted.len());
    } else {
        assert(j < sorted.len());
        lemma_insert_dur_at(sorted.drop_last(), d, j);
        assert(insert_dur(sorted.drop_last(), d).push(sorted.last()) =~= sorted.insert(j, d));
    }
}

proof fn lemma_insert_dur_multiset(sorted: Seq<u64>, d: u64)
    ensures
        insert_dur(sorted, d).to_multiset() =~= sorted.to_multiset().insert(d),
    decreases sorted.len(),
{
    broadcast use vstd::seq_lib::group_to_multiset_ensures;

    if sorted.len() == 0 {
        assert(insert_dur(sorted, d) =~= Seq::<u64>::empty().push(d));
        assert(sorted =~= Seq::<u64>::empty());
    } else if sorted.last() <= d {
    } else {
        lemma_insert_dur_multiset(sorted.drop_last(), d);
        assert(sorted.drop_last().push(sorted.last()) =~= sorted);
    }
}

/// Sorting reorders the durations and does nothing else: the sorted
/// list holds exactly the observed durations, with multiplicity.
pub proof fn lemma_sort_durs_multiset(s: Seq<u64>)
    ensures
        sort_durs(s).to_multiset() =~= s.to_multiset(),
    decreases s.len(),
{
    broadcast use vstd::seq_lib::group_to_multiset_ensures;

    if s.len() > 0 {
        lemma_sort_durs_multiset(s.drop_last());
        lemma_insert_dur_multiset(sort_durs(s.drop_last()), s.last());
        assert(s.drop_last().push(s.last()) =~= s);
    }
}

proof fn lemma_insert_dur_sorted(sorted: Seq<u64>, d: u64)
    requires
        forall|i: int, j: int| 0 <= i < j < sorted.len() ==> sorted[i] <= sorted[j],
    ensures
        forall|i: int, j: int|
            0 <= i < j < insert_dur(sorted, d).len() ==> insert_dur(sorted, d)[i] <= insert_dur(
                sorted,
                d,
            )[j],
    decreases sorted.len(),
{
    broadcast use vstd::seq_lib::group_to_multiset_ensures;

    let r = insert_dur(sorted, d);
    if sorted.len() == 0 {
    } else if sorted.last() <= d {
        assert forall|i: int, j: int| 0 <= i < j < r.len() implies r[i] <= r[j] by {
            if j == r.len() - 1 {
                if i < sorted.len() - 1 {
                    assert(sorted[i] <= sorted[sorted.len() - 1]);
                }
            }
        }
    } else {
        lemma_insert_dur_sorted(sorted.drop_last(), d);
        lemma_insert_dur_multiset(sorted.drop_last(), d);
        let r0 = insert_dur(sorted.drop_last(), d);
        assert forall|i: int, j: int| 0 <= i < j < r.len() implies r[i] <= r[j] by {
            if j == r.len() - 1 {
                assert(r[j] == sorted.last());
                assert(r0.contains(r0[i]));
                assert(r0.to_multiset().count(r0[i]) > 0);
                if sorted.drop_last().to_multiset().count(r0[i]) > 0 {
                    assert(sorted.drop_last().contains(r0[i]));
                    let w = choose|w: int|
                        0 <= w < sorted.drop_last().len() && sorted.drop_last()[w] == r0[i];
                    assert(sorted[w] <= sorted[sorted.len() - 1]);
                } else {
                    assert(r0[i] == d);
                }
            }
        }
    }
}

/// The summarizer's order: the sorted duration list ascends, so the
/// fixed ranks read off true percentiles.
pub proof fn lemma_sort_durs_sorted(s: Seq<u64>)
    ensures
        forall|i: int, j: int|
            0 <= i < j < sort_durs(s).len() ==> sort_durs(s)[i] <= sort_durs(s)[j],
    decreases s.len(),
{
    if s.len() > 0 {
        lemma_sort_durs_sorted(s.drop_last());
        lemma_insert_dur_sorted(sort_durs(s.drop_last()), s.last());
    }
}

/// Sorts a duration list ascending.
fn sort_durs_exec(v: &Vec<u64>) -> (r: Vec<u64>)
    ensures
        r@ == sort_durs(v@),
{
    let n = v.len();
    let mut sorted: Vec<u64> = Vec::new();
    let mut i: usize = 0;
    proof {
        assert(v@.take(0) =~= Seq::<u64>::empty());
    }
    while i < n
        invariant
            i <= n,
            n == v@.len(),
            sorted@ == sort_durs(v@.take(i as int)),
        decreases n - i,
    {
        let d = v[i];
        let ghost prev_sorted = sorted@;
        let mut j: usize = sorted.len();
        loop
            invariant
                0 <= j <= sorted@.len(),
                sorted@ == prev_sorted,
                forall|k: int| j <= k < sorted@.len() ==> #[trigger] sorted@[k] > d,
            ensures
                0 <= j <= sorted@.len(),
                sorted@ == prev_sorted,
                forall|k: int| j <= k < sorted@.len() ==> #[trigger] sorted@[k] > d,
                j > 0 ==> sorted@[j - 1] <= d,
            decreases j,
        {
            if j == 0 {
                break;
            }
            if sorted[j - 1] <= d {
                break;
            }
            j = j - 1;
        }
        sorted.insert(j, d);
        proof {
            lemma_insert_dur_at(prev_sorted, d, j as int);
            assert(v@.take(i + 1).drop_last() =~= v@.take(i as int));
            assert(v@.take(i + 1).last() == v@[i as int]);
        }
        i = i + 1;
    }
    proof {
        assert(v@.take(n as int) =~= v@);
    }
    sorted
}

/// The fixed percentile statistics of one thread's run slices.
pub struct SliceStats {
    pub min: u64,
    pub p5: u64,
    pub p25: u64,
    pub p50: u64,
    pub p75: u64,
    pub p95: u64,
    pub max: u64,
}

/// The statistics read off an ascending list at the fixed percentile
/// ranks, by floor division; for small lists several ranks coincide,
/// which is expected.
pub open spec fn spec_stats(sorted: Seq<u64>) -> SliceStats
    recommends
        sorted.len() > 0,
{
    let n = sorted.len() as int;
    SliceStats {
        min: sorted[0],
        p5: sorted[n / 20],
        p25: sorted[n / 4],
        p50: sorted[n / 2],
        p75: sorted[3 * n / 4],
        p95: sorted[19 * n / 20],
        max: sorted[n - 1],
    }
}

/// Sorts one thread's observed run-slice durations and reads off the
/// percentile summary; an empty list has no summary and its thread is
/// skipped by the report.
pub fn summarize_slices(durations: &Vec<u64>) -> (r: Option<SliceStats>)
    ensures
        (match r {
            Some(st) => durations@.len() > 0 && st == spec_stats(sort_durs(durations@)),
            None => durations@.len() == 0,
        }),
{
    let n = durations.len();
    if n == 0 {
        return None;
    }
    let sorted = sort_durs_exec(durations);
    proof {
        assert(sorted@.len() == durations@.len()) by {
            lemma_sort_durs_len(durations@);
        }
    }
    let n128 = n as u128;
    let i75: usize = ((3u128 * n128) / 4) as usize;
    let i95: usize = ((19u128 * n128) / 20) as usize;
    Some(
        SliceStats {
            min: sorted[0],
            p5: sorted[n / 20],
            p25: sorted[n / 4],
            p50: sorted[n / 2],
            p75: sorted[i75],
            p95: sorted[i95],
            max: sorted[n - 1],
        },
    )
}

/// Sorting a duration list keeps its length.
pub proof fn lemma_sort_durs_len(s: Seq<u64>)
    ensures
        sort_durs(s).len() == s.len(),
    decreases s.len(),
{
    if s.len() > 0 {
        lemma_sort_durs_len(s.drop_last());
        lemma_insert_dur_len(sort_durs(s.drop_last()), s.last());
    }
}

proof fn lemma_insert_dur_len(sorted: Seq<u64>, d: u64)
    ensures
        insert_dur(sorted, d).len() == sorted.len() + 1,
    decreases sorted.len(),
{
    if sorted.len() > 0 && !(sorted.last() <= d) {
        lemma_insert_dur_len(sorted.drop_last(), d);
    }
}

/// The per-thread duration lists at view level.
pub open spec fn slice_views(s: Seq<(i32, Vec<u64>)>) -> Seq<(i32, Seq<u64>)> {
    s.map_values(|e: (i32, Vec<u64>)| (e.0, e.1@))
}

/// The first `n` entries whose duration list is non-empty, in order;
/// a thread observed waking others but never measured for a slice has
/// an empty list and is skipped.
pub open spec fn nonempty_entries(entries: Seq<(i32, Seq<u64>)>, n: int) -> Seq<(i32, Seq<u64>)>
    decreases n,
{
    if n <= 0 {
        Seq::<(i32, Seq<u64>)>::empty()
    } else {
        let rest = nonempty_entries(entries, n - 1);
        if entries[n - 1].1.len() > 0 {
            rest.push(entries[n - 1])
        } else {
            rest
        }
    }
}

/// The ten columns of the run-slice table.
pub open spec fn slice_cols_ok(cols: Seq<Column>) -> bool {
    &&& cols.len() == 10
    &&& cols[0].title@ == "pid"@ && cols[0].width == 8
    &&& cols[1].title@ == "comm"@ && cols[1].width == 16
    &&& cols[2].title@ == "slices"@ && cols[2].width == 10
    &&& cols[3].title@ == "min"@ && cols[3].width == 6
    &&& cols[4].title@ == "p5"@ && cols[4].width == 6
    &&& cols[5].title@ == "p25"@ && cols[5].width == 6
    &&& cols[6].title@ == "p50"@ && cols[6].width == 6
    &&& cols[7].title@ == "p75"@ && cols[7].width == 6
    &&& cols[8].title@ == "p95"@ && cols[8].width == 6
    &&& cols[9].title@ == "max"@ && cols[9].width == 6
}

/// One table row per summarized thread: the id, its resolved name,
/// the sample count, and the seven percentile statistics.
pub open spec fn slice_rows_match(
    rows: Seq<Seq<Data>>,
    ents: Seq<(i32, Seq<u64>)>,
    curr: ProcessDataSnapshot,
) -> bool {
    &&& rows.len() == ents.len()
    &&& forall|k: int|
        0 <= k < rows.len() ==> {
            let st = spec_stats(sort_durs(ents[k].1));
            &&& (#[trigger] rows[k]).len() == 10
            &&& rows[k][0] == Data::Int(ents[k].0 as i64)
            &&& (rows[k][1] matches Data::Text(s) && s@ == name_chars(curr, ents[k].0))
            &&& rows[k][2] == Data::UInt(ents[k].1.len() as u64)
            &&& rows[k][3] == Data::UInt(st.min)
            &&& rows[k][4] == Data::UInt(st.p5)
            &&& rows[k][5] == Data::UInt(st.p25)
            &&& rows[k][6] == Data::UInt(st.p50)
            &&& rows[k][7] == Data::UInt(st.p75)
            &&& rows[k][8] == Data::UInt(st.p95)
            &&& rows[k][9] == Data::UInt(st.max)
        }
}

/// What a rendered run-slice table is: the fixed ten columns over the
/// summarized threads' rows, displayed ascending by sample count.
pub open spec fn is_slices_text(
    s: Seq<char>,
    entries: Seq<(i32, Seq<u64>)>,
    curr: ProcessDataSnapshot,
) -> bool {
    exists|cols: Seq<Column>, rows: Seq<Seq<Data>>|
        {
            &&& slice_cols_ok(cols)
            &&& slice_rows_match(rows, nonempty_entries(entries, entries.len() as int), curr)
            &&& s == render_chars(cols, sort_rows(rows, 2), 0)
        }
}

/// Renders the run-slice percentile report: one row per thread with a
/// non-empty sample list, displayed ascending by sample count, with a
/// blank line after the table.
pub fn print_slices(slices: &Vec<(i32, Vec<u64>)>, curr: &ProcessDataSnapshot) -> (r: String)
    requires
        curr.wf(),
    ensures
        exists|body: Seq<char>|
            is_slices_text(body, slice_views(slices@), *curr) && r@ == body + "\n"@,
{
    let mut cols: Vec<Column> = Vec::new();
    cols.push(Column { title: String::from_str("pid"), width: 8 });
    cols.push(Column { title: String::from_str("comm"), width: 16 });
    cols.push(Column { title: String::from_str("slices"), width: 10 });
    cols.push(Column { title: String::from_str("min"), width: 6 });
    cols.push(Column { title: String::from_str("p5"), width: 6 });
    cols.push(Column { title: String::from_str("p25"), width: 6 });
    cols.push(Column { title: String::from_str("p50"), width: 6 });
    cols.push(Column { title: String::from_str("p75"), width: 6 });
    cols.push(Column { title: String::from_str("p95"), width: 6 });
    cols.push(Column { title: String::from_str("max"), width: 6 });
    let mut table = Table::new(cols);
    table.sort_by = Some(2);

    let ghost entv = slice_views(slices@);
    let n = slices.len();
    let mut i: usize = 0;
    proof {
        assert(row_views(table.data@) =~= Seq::<Seq<Data>>::empty());
        assert(nonempty_entries(entv, 0) =~= Seq::<(i32, Seq<u64>)>::empty());
    }
    while i < n
        invariant
            i <= n,
            n == slices@.len(),
            entv == slice_views(slices@),
            curr.wf(),
            table.wf(),
            table.columns@.len() == 10,
            slice_cols_ok(table.columns@),
            table.sort_by == Some(2usize),
            table.filter_by == None::<usize>,
            table.top == None::<usize>,
            slice_rows_match(row_views(table.data@), nonempty_entries(entv, i as int), *curr),
            forall|r0: int|
                0 <= r0 < table.data@.len() ==> {
                    &&& (#[trigger] table.data@[r0])@.len() == 10
                    &&& table.data@[r0]@[0] is Int
                    &&& table.data@[r0]@[1] is Text
                    &&& forall|j: int| 2 <= j <= 9 ==> table.data@[r0]@[j] is UInt
                },
        decreases n - i,
    {
        let pid = slices[i].0;
        proof {
            assert(entv[i as int] == (slices@[i as int].0, slices@[i as int].1@));
        }
        match summarize_slices(&slices[i].1) {
            Some(st) => {
                let mut row: Vec<Data> = Vec::new();
                row.push(Data::Int(pid as i64));
                row.push(Data::Text(name_of(curr, pid)));
                row.push(Data::UInt(slices[i].1.len() as u64));
                row.push(Data::UInt(st.min));
                row.push(Data::UInt(st.p5));
                row.push(Data::UInt(st.p25));
                row.push(Data::UInt(st.p50));
                row.push(Data::UInt(st.p75));
                row.push(Data::UInt(st.p95));
                row.push(Data::UInt(st.max));
                proof {
                    assert forall|r0: int, j: int|
                        0 <= r0 < table.data@.len() && 0 <= j < table.columns@.len() implies
                        crate::output::same_variant(#[trigger] table.data@[r0][j], row@[j]) by {
                        assert(table.data@[r0][j] == table.data@[r0]@[j]);
                        if 2 <= j <= 9 {
                            assert(table.data@[r0]@[j] is UInt);
                        }
                    }
                }
                let ghost pre = table.data@;
                let ok = table.add_row(row);
                proof {
                    assert(ok);
                    assert(row_views(table.data@) =~= row_views(pre).push(row@));
                    assert(nonempty_entries(entv, i + 1) =~= nonempty_entries(entv, i as int).push(
                        entv[i as int],
                    ));
                    assert forall|r0: int| 0 <= r0 < table.data@.len() implies {
                        &&& (#[trigger] table.data@[r0])@.len() == 10
                        &&& table.data@[r0]@[0] is Int
                        &&& table.data@[r0]@[1] is Text
                        &&& forall|j: int| 2 <= j <= 9 ==> table.data@[r0]@[j] is UInt
                    } by {
                        assert(row_views(table.data@)[r0] == table.data@[r0]@);
                        if r0 < pre.len() {
                            assert(row_views(pre)[r0] == pre[r0]@);
                            assert(table.data@[r0]@ == pre[r0]@);
                        } else {
                            assert(table.data@[r0]@ == row@);
                        }
                    }
                    assert(slice_rows_match(
                        row_views(table.data@),
                        nonempty_entries(entv, i + 1),
                        *curr,
                    ));
                }
            },
            None => {
                proof {
                    assert(nonempty_entries(entv, i + 1) =~= nonempty_entries(entv, i as int));
                }
            },
        }
        i = i + 1;
    }
    let ghost built = row_views(table.data@);
    let mut out = table.display_table();
    out.append("\n");
    proof {
        assert(out@ =~= render_chars(table.columns@, sort_rows(built, 2), 0) + "\n"@);
    }
    out
}

} // verus!
