//! Assembly of the per-cycle delta report: the summary line and the
//! per-thread metrics table.

use vstd::prelude::*;
use crate::output::{kept_rows, render_chars, row_views, sort_rows, Data, Table};
use crate::snapshot::{
    deltas_monotonic, spec_born_seq, spec_delta_seq, spec_died_seq, ProcessDataSnapshot,
    ThreadDelta,
};
use crate::text;
use vstd::string::StringExecFns;

verus! {

/// The ten cells of one delta row, in column order: thread id, name,
/// user and system CPU share, on-CPU and wait time, dispatches,
/// average slice, and the two context-switch counts.
pub open spec fn delta_cells(d: ThreadDelta) -> Seq<Data> {
    seq![
        Data::Int(d.pid as i64),
        Data::Text(d.comm),
        Data::Fixed(d.usr_pct),
        Data::Fixed(d.sys_pct),
        Data::UInt(d.on_cpu),
        Data::UInt(d.waiting_for_cpu),
        Data::UInt(d.slices),
        Data::UInt(d.avg_slice),
        Data::UInt(d.vctxsw),
        Data::UInt(d.ivctxsw),
    ]
}

/// The table rows of a run of deltas.
pub open spec fn delta_rows_of(ds: Seq<ThreadDelta>) -> Seq<Seq<Data>> {
    ds.map_values(|d: ThreadDelta| delta_cells(d))
}

/// The shape a delta row always has: ten cells with fixed variants.
pub open spec fn delta_shape(row: Seq<Data>) -> bool {
    &&& row.len() == 10
    &&& row[0] is Int
    &&& row[1] is Text
    &&& row[2] is Fixed
    &&& row[3] is Fixed
    &&& row[4] is UInt
    &&& row[5] is UInt
    &&& row[6] is UInt
    &&& row[7] is UInt
    &&& row[8] is UInt
    &&& row[9] is UInt
}

/// The summary line over a cycle: current thread count, how many
/// threads died, how many were born.
pub open spec fn summary_chars(threads: int, died: int, born: int) -> Seq<char> {
    text::dec_chars(threads) + " threads, "@ + text::dec_chars(died) + " died, "@
        + text::dec_chars(born) + " born"@
}

/// The full rendered delta report of one cycle against a table
/// configuration: the summary line, then the delta table with the
/// configured filter, sort and window applied.
pub open spec fn delta_report_chars(
    t: Table,
    prev: ProcessDataSnapshot,
    curr: ProcessDataSnapshot,
    load: int,
) -> Seq<char> {
    let deltas = spec_delta_seq(prev, curr, load, prev.threads@.len() as int);
    let rows = kept_rows(t.filter_by, delta_rows_of(deltas));
    let sorted = match t.sort_by {
        Some(c) => sort_rows(rows, c as int),
        None => rows,
    };
    let lo: int = match t.top {
        Some(nn) => if rows.len() > nn {
            rows.len() - nn
        } else {
            0
        },
        None => 0,
    };
    summary_chars(
        curr.threads@.len() as int,
        spec_died_seq(prev, curr, prev.threads@.len() as int).len() as int,
        spec_born_seq(prev, curr, curr.threads@.len() as int).len() as int,
    ) + seq!['\n'] + render_chars(t.columns@, sorted, lo) + seq!['\n']
}

/// Diffs two snapshots of one process, fills the report table with
/// one row per surviving thread, renders it under the table's own
/// filter, sort and window, and clears the table for the next cycle.
/// Returns the summary line followed by the rendered table.
pub fn print_delta_procs(
    table: &mut Table,
    prev: &ProcessDataSnapshot,
    curr: &ProcessDataSnapshot,
    load: u64,
) -> (r: String)
    requires
        old(table).wf(),
        old(table).columns@.len() == 10,
        old(table).data@.len() == 0,
        prev.pid == curr.pid,
        prev.wf(),
        curr.wf(),
        deltas_monotonic(*prev, *curr),
    ensures
        final(table).columns == old(table).columns,
        final(table).sort_by == old(table).sort_by,
        final(table).filter_by == old(table).filter_by,
        final(table).top == old(table).top,
        final(table).data@.len() == 0,
        final(table).wf(),
        r@ == delta_report_chars(*old(table), *prev, *curr, load as int),
{
    let report = crate::snapshot::diff(prev, curr, load);
    let ghost deltas = report.deltas@;

    let mut out = String::new();
    text::push_u64(&mut out, curr.threads.len() as u64);
    out.append(" threads, ");
    text::push_u64(&mut out, report.died.len() as u64);
    out.append(" died, ");
    text::push_u64(&mut out, report.born.len() as u64);
    out.append(" born");
    out.append("\n");
    proof {
        reveal_strlit("\n");
        assert(out@ =~= summary_chars(
            curr.threads@.len() as int,
            spec_died_seq(*prev, *curr, prev.threads@.len() as int).len() as int,
            spec_born_seq(*prev, *curr, curr.threads@.len() as int).len() as int,
        ) + seq!['\n']);
    }

    let nd = report.deltas.len();
    let mut i: usize = 0;
    while i < nd
        invariant
            i <= nd,
            nd == deltas.len(),
            report.deltas@ == deltas,
            table.columns == old(table).columns,
            table.sort_by == old(table).sort_by,
            table.filter_by == old(table).filter_by,
            table.top == old(table).top,
            table.columns@.len() == 10,
            table.wf(),
            row_views(table.data@) == kept_rows(table.filter_by, delta_rows_of(deltas.take(i as int))),
            forall|r0: int|
                0 <= r0 < table.data@.len() ==> delta_shape((#[trigger] table.data@[r0])@),
        decreases nd - i,
    {
        let d = &report.deltas[i];
        let mut row: Vec<Data> = Vec::new();
        row.push(Data::Int(d.pid as i64));
        row.push(Data::Text(d.comm.clone()));
        row.push(Data::Fixed(d.usr_pct));
        row.push(Data::Fixed(d.sys_pct));
        row.push(Data::UInt(d.on_cpu));
        row.push(Data::UInt(d.waiting_for_cpu));
        row.push(Data::UInt(d.slices));
        row.push(Data::UInt(d.avg_slice));
        row.push(Data::UInt(d.vctxsw));
        row.push(Data::UInt(d.ivctxsw));
        proof {
            assert(row@ =~= delta_cells(deltas[i as int]));
            assert(delta_shape(row@));
            assert forall|r0: int, j: int|
                0 <= r0 < table.data@.len() && 0 <= j < table.columns@.len() implies
                crate::output::same_variant(#[trigger] table.data@[r0][j], row@[j]) by {
                let er = table.data@[r0]@;
                assert(delta_shape(er));
                assert(table.data@[r0][j] == er[j]);
            }
        }
        let ghost pre = table.data@;
        let ghost before = row_views(pre);
        let ok = table.add_row(row);
        proof {
            assert(ok);
            assert(delta_rows_of(deltas.take(i + 1)).drop_last() =~= delta_rows_of(
                deltas.take(i as int),
            ));
            assert(delta_rows_of(deltas.take(i + 1)).last() == delta_cells(deltas[i as int]));
            assert(row_views(table.data@) =~= kept_rows(
                table.filter_by,
                delta_rows_of(deltas.take(i + 1)),
            ));
            assert forall|r0: int| 0 <= r0 < table.data@.len() implies delta_shape(
                (#[trigger] table.data@[r0])@,
            ) by {
                assert(row_views(table.data@)[r0] == table.data@[r0]@);
                if r0 < before.len() {
                    assert(row_views(table.data@)[r0] == before[r0]);
                    assert(before[r0] == pre[r0]@);
                    assert(delta_shape(pre[r0]@));
                } else {
                    assert(row_views(table.data@)[r0] == row@);
                }
            }
        }
        i = i + 1;
    }
    proof {
        assert(deltas.take(nd as int) =~= deltas);
    }

    let rendered = table.display_table();
    out.append(rendered.as_str());
    out.append("\n");
    table.clear_data();
    proof {
        reveal_strlit("\n");
        assert(out@ =~= delta_report_chars(*old(table), *prev, *curr, load as int));
    }
    out
}

} // verus!
