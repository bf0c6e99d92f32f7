//! Generic typed-column table with sorting, filtering and windowing,
//! and its fixed-width text renderer.

use vstd::prelude::*;
use crate::text;

verus! {

/// One table cell: an unsigned count, a signed number, a fixed-point
/// value in ten-thousandths, or free text.
pub enum Data {
    UInt(u64),
    Int(i64),
    Fixed(i64),
    Text(String),
}

/// One column: a title and a display width in characters.
pub struct Column {
    pub title: String,
    pub width: usize,
}

/// A typed-column table. Rows are kept until the next `clear_data`;
/// the configuration (columns, sort/filter/top) persists across cycles.
pub struct Table {
    pub columns: Vec<Column>,
    pub data: Vec<Vec<Data>>,
    pub sort_by: Option<usize>,
    pub filter_by: Option<usize>,
    pub top: Option<usize>,
}

/// Whether two cells carry the same variant; only such cells compare.
pub open spec fn same_variant(a: Data, b: Data) -> bool {
    match (a, b) {
        (Data::UInt(_), Data::UInt(_)) => true,
        (Data::Int(_), Data::Int(_)) => true,
        (Data::Fixed(_), Data::Fixed(_)) => true,
        (Data::Text(_), Data::Text(_)) => true,
        _ => false,
    }
}

/// Lexicographic order on character sequences, by scalar value.
pub open spec fn chars_le(a: Seq<char>, b: Seq<char>) -> bool
    decreases a.len(),
{
    if a.len() == 0 {
        true
    } else if b.len() == 0 {
        false
    } else if a[0] != b[0] {
        a[0] < b[0]
    } else {
        chars_le(a.drop_first(), b.drop_first())
    }
}

/// Order on same-variant cells: numeric for the numeric variants,
/// lexicographic for text.
pub open spec fn data_le(a: Data, b: Data) -> bool
    recommends
        same_variant(a, b),
{
    match (a, b) {
        (Data::UInt(x), Data::UInt(y)) => x <= y,
        (Data::Int(x), Data::Int(y)) => x <= y,
        (Data::Fixed(x), Data::Fixed(y)) => x <= y,
        (Data::Text(x), Data::Text(y)) => chars_le(x@, y@),
        _ => true,
    }
}

/// Lexicographic comparison of two strings.
fn str_le(a: &str, b: &str) -> (r: bool)
    ensures
        r == chars_le(a@, b@),
{
    let a_len = a.unicode_len();
    let b_len = b.unicode_len();
    let mut i: usize = 0;
    proof {
        assert(a@.skip(0) =~= a@);
        assert(b@.skip(0) =~= b@);
    }
    loop
        invariant
            i <= a_len,
            i <= b_len,
            a_len == a@.len(),
            b_len == b@.len(),
            chars_le(a@, b@) == chars_le(a@.skip(i as int), b@.skip(i as int)),
        ensures
            chars_le(a@, b@) == ({
                if i == a_len {
                    true
                } else if i == b_len {
                    false
                } else {
                    a@[i as int] < b@[i as int]
                }
            }),
        decreases a_len - i,
    {
        if i == a_len {
            break;
        }
        if i == b_len {
            break;
        }
        let ca = a.get_char(i);
        let cb = b.get_char(i);
        if ca != cb {
            break;
        }
        proof {
            let sa = a@.skip(i as int);
            let sb = b@.skip(i as int);
            assert(sa.drop_first() =~= a@.skip(i + 1));
            assert(sb.drop_first() =~= b@.skip(i + 1));
        }
        i = i + 1;
    }
    if i == a_len {
        true
    } else if i == b_len {
        false
    } else {
        a.get_char(i) < b.get_char(i)
    }
}

/// Whether cell `a` orders at or before cell `b`. Mismatched variants
/// are a contract violation, so callers must compare like with like.
fn data_le_exec(a: &Data, b: &Data) -> (r: bool)
    requires
        same_variant(*a, *b),
    ensures
        r == data_le(*a, *b),
{
    match (a, b) {
        (Data::UInt(x), Data::UInt(y)) => *x <= *y,
        (Data::Int(x), Data::Int(y)) => *x <= *y,
        (Data::Fixed(x), Data::Fixed(y)) => *x <= *y,
        (Data::Text(x), Data::Text(y)) => str_le(x.as_str(), y.as_str()),
        _ => true,
    }
}

/// A cell that the display-noise filter treats as empty: a zero count,
/// a fixed-point value below the resolution, or empty text.
pub open spec fn cell_empty(d: Data) -> bool {
    match d {
        Data::UInt(v) => v == 0,
        Data::Int(v) => v == 0,
        Data::Fixed(v) => v == 0,
        Data::Text(s) => s@.len() == 0,
    }
}

fn cell_empty_exec(d: &Data) -> (r: bool)
    ensures
        r == cell_empty(*d),
{
    match d {
        Data::UInt(v) => *v == 0,
        Data::Int(v) => *v == 0,
        Data::Fixed(v) => *v == 0,
        Data::Text(s) => s.as_str().unicode_len() == 0,
    }
}

/// The first column at or after `i` whose title starts with `s`.
pub open spec fn prefix_match_from(cols: Seq<Column>, s: Seq<char>, i: int) -> Option<int>
    decreases cols.len() - i,
{
    if i < 0 || i >= cols.len() {
        None
    } else if s.is_prefix_of(cols[i].title@) {
        Some(i)
    } else {
        prefix_match_from(cols, s, i + 1)
    }
}

/// Resolution of a user-supplied column description: a numeric index
/// in range is taken directly; otherwise the first column whose title
/// starts with the text; otherwise no match.
pub open spec fn spec_column_index(cols: Seq<Column>, s: Seq<char>) -> Option<int> {
    if text::is_dec_chars(s) && text::dec_val(s) < cols.len() {
        Some(text::dec_val(s))
    } else {
        prefix_match_from(cols, s, 0)
    }
}

/// The views of the stored rows: each row as the sequence of its cells.
pub open spec fn row_views(rows: Seq<Vec<Data>>) -> Seq<Seq<Data>> {
    rows.map_values(|r: Vec<Data>| r@)
}

proof fn lemma_row_views_insert(rows: Seq<Vec<Data>>, j: int, row: Vec<Data>)
    requires
        0 <= j <= rows.len(),
    ensures
        row_views(rows.insert(j, row)) =~= row_views(rows).insert(j, row@),
{
}

/// Stable insertion of a row into a run already sorted ascending by the
/// cell at column `col`: the row lands after every row whose key is at
/// or below its own, so rows with equal keys keep their relative order.
pub open spec fn insert_row(sorted: Seq<Seq<Data>>, row: Seq<Data>, col: int) -> Seq<Seq<Data>>
    decreases sorted.len(),
{
    if sorted.len() == 0 {
        seq![row]
    } else if data_le(sorted.last()[col], row[col]) {
        sorted.push(row)
    } else {
        insert_row(sorted.drop_last(), row, col).push(sorted.last())
    }
}

/// Stable ascending sort of rows by the cell at column `col`.
pub open spec fn sort_rows(rows: Seq<Seq<Data>>, col: int) -> Seq<Seq<Data>>
    decreases rows.len(),
{
    if rows.len() == 0 {
        Seq::<Seq<Data>>::empty()
    } else {
        insert_row(sort_rows(rows.drop_last(), col), rows.last(), col)
    }
}

proof fn lemma_insert_row_multiset(sorted: Seq<Seq<Data>>, row: Seq<Data>, col: int)
    ensures
        insert_row(sorted, row, col).to_multiset() =~= sorted.to_multiset().insert(row),
    decreases sorted.len(),
{
    broadcast use vstd::seq_lib::group_to_multiset_ensures;

    if sorted.len() == 0 {
        assert(insert_row(sorted, row, col) =~= Seq::<Seq<Data>>::empty().push(row));
        assert(sorted =~= Seq::<Seq<Data>>::empty());
    } else if data_le(sorted.last()[col], row[col]) {
    } else {
        lemma_insert_row_multiset(sorted.drop_last(), row, col);
        assert(sorted.drop_last().push(sorted.last()) =~= sorted);
    }
}

/// Sorting reorders the rows and does nothing else: the sorted sequence
/// holds exactly the rows that went in, with multiplicity.
pub proof fn lemma_sort_rows_multiset(rows: Seq<Seq<Data>>, col: int)
    ensures
        sort_rows(rows, col).to_multiset() =~= rows.to_multiset(),
    decreases rows.len(),
{
    broadcast use vstd::seq_lib::group_to_multiset_ensures;

    if rows.len() == 0 {
    } else {
        lemma_sort_rows_multiset(rows.drop_last(), col);
        lemma_insert_row_multiset(sort_rows(rows.drop_last(), col), rows.last(), col);
        assert(rows.drop_last().push(rows.last()) =~= rows);
    }
}

/// Every row of the sorted sequence is one of the rows that went in.
pub proof fn lemma_sort_rows_membership(rows: Seq<Seq<Data>>, col: int)
    ensures
        forall|x: Seq<Data>| #[trigger] sort_rows(rows, col).contains(x) ==> rows.contains(x),
        sort_rows(rows, col).len() == rows.len(),
{
    broadcast use vstd::seq_lib::group_to_multiset_ensures;

    lemma_sort_rows_multiset(rows, col);
    let s = sort_rows(rows, col);
    assert forall|x: Seq<Data>| #[trigger] s.contains(x) implies rows.contains(x) by {
        assert(s.to_multiset().count(x) > 0);
        assert(rows.to_multiset().count(x) > 0);
    }
    assert(s.len() == s.to_multiset().len());
    assert(rows.len() == rows.to_multiset().len());
}

proof fn lemma_insert_row_at(sorted: Seq<Seq<Data>>, row: Seq<Data>, col: int, j: int)
    requires
        0 <= j <= sorted.len(),
        forall|k: int| j <= k < sorted.len() ==> !data_le(#[trigger] sorted[k][col], row[col]),
        j > 0 ==> data_le(sorted[j - 1][col], row[col]),
    ensures
        insert_row(sorted, row, col) =~= sorted.insert(j, row),
    decreases sorted.len(),
{
    if sorted.len() == 0 {
    } else if data_le(sorted.last()[col], row[col]) {
        assert(j == sorted.len());
    } else {
        assert(j < sorted.len());
        lemma_insert_row_at(sorted.drop_last(), row, col, j);
        assert(insert_row(sorted.drop_last(), row, col).push(sorted.last()) =~= sorted.insert(
            j,
            row,
        ));
    }
}

proof fn lemma_chars_le_total(a: Seq<char>, b: Seq<char>)
    ensures
        chars_le(a, b) || chars_le(b, a),
    decreases a.len(),
{
    if a.len() > 0 && b.len() > 0 && a[0] == b[0] {
        lemma_chars_le_total(a.drop_first(), b.drop_first());
    }
}

proof fn lemma_chars_le_trans(a: Seq<char>, b: Seq<char>, c: Seq<char>)
    requires
        chars_le(a, b),
        chars_le(b, c),
    ensures
        chars_le(a, c),
    decreases a.len(),
{
    if a.len() > 0 && c.len() > 0 && a[0] == b[0] && b[0] == c[0] {
        lemma_chars_le_trans(a.drop_first(), b.drop_first(), c.drop_first());
    }
}

/// On same-variant cells the order is total: two cells always compare
/// one way or the other.
pub proof fn lemma_data_le_total(a: Data, b: Data)
    requires
        same_variant(a, b),
    ensures
        data_le(a, b) || data_le(b, a),
{
    match (a, b) {
        (Data::Text(x), Data::Text(y)) => {
            lemma_chars_le_total(x@, y@);
        },
        _ => {},
    }
}

proof fn lemma_data_le_trans(a: Data, b: Data, c: Data)
    requires
        same_variant(a, b),
        same_variant(b, c),
        data_le(a, b),
        data_le(b, c),
    ensures
        data_le(a, c),
{
    match (a, b, c) {
        (Data::Text(x), Data::Text(y), Data::Text(z)) => {
            lemma_chars_le_trans(x@, y@, z@);
        },
        _ => {},
    }
}

proof fn lemma_insert_row_sorted(sorted: Seq<Seq<Data>>, row: Seq<Data>, col: int)
    requires
        forall|i: int, j: int|
            0 <= i < j < sorted.len() ==> data_le(
                (#[trigger] sorted[i])[col],
                (#[trigger] sorted[j])[col],
            ),
        forall|i: int| 0 <= i < sorted.len() ==> same_variant((#[trigger] sorted[i])[col], row[col]),
    ensures
        forall|i: int, j: int|
            0 <= i < j < insert_row(sorted, row, col).len() ==> data_le(
                (#[trigger] insert_row(sorted, row, col)[i])[col],
                (#[trigger] insert_row(sorted, row, col)[j])[col],
            ),
    decreases sorted.len(),
{
    broadcast use vstd::seq_lib::group_to_multiset_ensures;

    let r = insert_row(sorted, row, col);
    if sorted.len() == 0 {
    } else if data_le(sorted.last()[col], row[col]) {
        assert forall|i: int, j: int| 0 <= i < j < r.len() implies data_le(
            (#[trigger] r[i])[col],
            (#[trigger] r[j])[col],
        ) by {
            if j == r.len() - 1 {
                if i < sorted.len() - 1 {
                    assert(data_le(sorted[i][col], sorted[sorted.len() - 1][col]));
                    lemma_data_le_trans(sorted[i][col], sorted[sorted.len() - 1][col], row[col]);
                }
            }
        }
    } else {
        assert forall|i: int|
            0 <= i < sorted.drop_last().len() implies same_variant(
            (#[trigger] sorted.drop_last()[i])[col],
            row[col],
        ) by {
            assert(sorted.drop_last()[i] == sorted[i]);
        }
        lemma_insert_row_sorted(sorted.drop_last(), row, col);
        lemma_insert_row_multiset(sorted.drop_last(), row, col);
        let r0 = insert_row(sorted.drop_last(), row, col);
        lemma_data_le_total(sorted.last()[col], row[col]);
        assert forall|i: int, j: int| 0 <= i < j < r.len() implies data_le(
            (#[trigger] r[i])[col],
            (#[trigger] r[j])[col],
        ) by {
            if j == r.len() - 1 {
                assert(r[j] == sorted.last());
                assert(r0.contains(r0[i]));
                assert(r0.to_multiset().count(r0[i]) > 0);
                if sorted.drop_last().to_multiset().count(r0[i]) > 0 {
                    assert(sorted.drop_last().contains(r0[i]));
                    let w = choose|w: int|
                        0 <= w < sorted.drop_last().len() && sorted.drop_last()[w] == r0[i];
                    assert(data_le(sorted[w][col], sorted[sorted.len() - 1][col]));
                } else {
                    assert(r0[i] == row);
                }
            }
        }
    }
}

/// The renderer's order: with the rows columnwise consistent, the
/// sorted sequence ascends by the sort column's cell.
pub proof fn lemma_sort_rows_sorted(rows: Seq<Seq<Data>>, col: int)
    requires
        forall|i: int, j: int|
            0 <= i < rows.len() && 0 <= j < rows.len() ==> same_variant(
                (#[trigger] rows[i])[col],
                (#[trigger] rows[j])[col],
            ),
    ensures
        forall|i: int, j: int|
            0 <= i < j < sort_rows(rows, col).len() ==> data_le(
                (#[trigger] sort_rows(rows, col)[i])[col],
                (#[trigger] sort_rows(rows, col)[j])[col],
            ),
    decreases rows.len(),
{
    broadcast use vstd::seq_lib::group_to_multiset_ensures;

    if rows.len() > 0 {
        assert forall|i: int, j: int|
            0 <= i < rows.drop_last().len() && 0 <= j < rows.drop_last().len() implies same_variant(
            (#[trigger] rows.drop_last()[i])[col],
            (#[trigger] rows.drop_last()[j])[col],
        ) by {
            assert(rows.drop_last()[i] == rows[i]);
            assert(rows.drop_last()[j] == rows[j]);
        }
        lemma_sort_rows_sorted(rows.drop_last(), col);
        lemma_sort_rows_membership(rows.drop_last(), col);
        let s0 = sort_rows(rows.drop_last(), col);
        assert forall|i: int| 0 <= i < s0.len() implies same_variant(
            (#[trigger] s0[i])[col],
            rows.last()[col],
        ) by {
            assert(s0.contains(s0[i]));
            assert(rows.drop_last().contains(s0[i]));
            let w = choose|w: int| 0 <= w < rows.drop_last().len() && rows.drop_last()[w] == s0[i];
            assert(rows[w] == s0[i]);
            assert(same_variant(rows[w][col], rows[rows.len() - 1][col]));
        }
        lemma_insert_row_sorted(s0, rows.last(), col);
    }
}

/// Sorts rows in place, ascending by the cell at column `col`, keeping
/// rows with equal keys in their original order.
fn sort_rows_exec(rows: &mut Vec<Vec<Data>>, col: usize)
    requires
        forall|r: int| 0 <= r < old(rows)@.len() ==> col < (#[trigger] old(rows)@[r])@.len(),
        forall|r1: int, r2: int|
            0 <= r1 < old(rows)@.len() && 0 <= r2 < old(rows)@.len() ==> same_variant(
                #[trigger] old(rows)@[r1]@[col as int],
                #[trigger] old(rows)@[r2]@[col as int],
            ),
    ensures
        row_views(final(rows)@) == sort_rows(row_views(old(rows)@), col as int),
{
    let ghost orig = row_views(old(rows)@);
    let mut sorted: Vec<Vec<Data>> = Vec::new();
    let ghost mut i: int = 0;
    proof {
        assert(orig.take(0) =~= Seq::<Seq<Data>>::empty());
        assert(row_views(rows@).skip(0) =~= orig);
    }
    while rows.len() > 0
        invariant
            0 <= i <= orig.len(),
            i + rows@.len() == orig.len(),
            row_views(rows@) =~= orig.skip(i),
            row_views(sorted@) == sort_rows(orig.take(i), col as int),
            forall|r: int| 0 <= r < orig.len() ==> col < (#[trigger] orig[r]).len(),
            forall|r1: int, r2: int|
                0 <= r1 < orig.len() && 0 <= r2 < orig.len() ==> same_variant(
                    #[trigger] orig[r1][col as int],
                    #[trigger] orig[r2][col as int],
                ),
        decreases rows@.len(),
    {
        let ghost before = rows@;
        let row = rows.remove(0);
        proof {
            assert(row@ == row_views(before)[0]);
            assert(row@ == orig[i]);
            assert(rows@ == before.remove(0));
            assert forall|k: int| 0 <= k < rows@.len() implies #[trigger] row_views(rows@)[k]
                == orig.skip(i + 1)[k] by {
                assert(rows@[k] == before[k + 1]);
                assert(row_views(before)[k + 1] == before[k + 1]@);
                assert(row_views(before)[k + 1] == orig.skip(i)[k + 1]);
            }
            assert(row_views(rows@) =~= orig.skip(i + 1));
            lemma_sort_rows_membership(orig.take(i), col as int);
            assert forall|k: int| 0 <= k < sorted@.len() implies orig.take(i).contains(
                #[trigger] row_views(sorted@)[k],
            ) by {
                assert(sort_rows(orig.take(i), col as int).contains(row_views(sorted@)[k]));
            }
        }
        let ghost prev_sorted = row_views(sorted@);
        // scan from the end for the insertion point that keeps the run
        // sorted and equal keys in arrival order
        let mut j: usize = sorted.len();
        loop
            invariant
                0 <= j <= sorted@.len(),
                row_views(sorted@) == prev_sorted,
                forall|k: int|
                    j <= k < sorted@.len() ==> !data_le(
                        #[trigger] prev_sorted[k][col as int],
                        row@[col as int],
                    ),
                forall|k: int| 0 <= k < sorted@.len() ==> orig.take(i).contains(#[trigger] prev_sorted[k]),
                forall|r: int| 0 <= r < orig.len() ==> col < (#[trigger] orig[r]).len(),
                forall|r1: int, r2: int|
                    0 <= r1 < orig.len() && 0 <= r2 < orig.len() ==> same_variant(
                        #[trigger] orig[r1][col as int],
                        #[trigger] orig[r2][col as int],
                    ),
                0 <= i < orig.len(),
                row@ == orig[i],
            ensures
                0 <= j <= sorted@.len(),
                row_views(sorted@) == prev_sorted,
                forall|k: int|
                    j <= k < sorted@.len() ==> !data_le(
                        #[trigger] prev_sorted[k][col as int],
                        row@[col as int],
                    ),
                j > 0 ==> data_le(prev_sorted[j - 1][col as int], row@[col as int]),
            decreases j,
        {
            if j == 0 {
                break;
            }
            proof {
                assert(orig.take(i).contains(prev_sorted[j - 1]));
                let w = choose|w: int|
                    0 <= w < orig.take(i).len() && orig.take(i)[w] == prev_sorted[j - 1];
                assert(orig[w] == prev_sorted[j - 1]);
                assert(sorted@[j - 1]@ == prev_sorted[j - 1]);
            }
            if data_le_exec(&sorted[j - 1][col], &row[col]) {
                break;
            }
            j = j - 1;
        }
        let ghost sorted_before = sorted@;
        sorted.insert(j, row);
        proof {
            lemma_insert_row_at(prev_sorted, row@, col as int, j as int);
            lemma_row_views_insert(sorted_before, j as int, row);
            assert(row_views(sorted@) =~= prev_sorted.insert(j as int, row@));
            assert(orig.take(i + 1).drop_last() =~= orig.take(i));
            assert(orig.take(i + 1).last() == orig[i]);
            i = i + 1;
        }
    }
    proof {
        assert(orig.take(i) =~= orig);
    }
    *rows = sorted;
}

/// The rows that survive the display-noise filter, in order: with a
/// filter column configured, rows whose cell there is empty are gone.
pub open spec fn kept_rows(filter_by: Option<usize>, rows: Seq<Seq<Data>>) -> Seq<Seq<Data>>
    decreases rows.len(),
{
    if rows.len() == 0 {
        Seq::<Seq<Data>>::empty()
    } else {
        let rest = kept_rows(filter_by, rows.drop_last());
        let keep = match filter_by {
            Some(c) => !cell_empty(rows.last()[c as int]),
            None => true,
        };
        if keep {
            rest.push(rows.last())
        } else {
            rest
        }
    }
}

/// The characters a cell renders to: counts and signed numbers in
/// decimal, fixed-point values with one fractional digit, text as is.
pub open spec fn cell_chars(d: Data) -> Seq<char> {
    match d {
        Data::UInt(v) => text::dec_chars(v as int),
        Data::Int(v) => text::signed_chars(v as int),
        Data::Fixed(v) => text::fixed_chars(v as int),
        Data::Text(s) => s@,
    }
}

/// The header line over the first `n` columns: each title left-aligned
/// to its column width, a single space after each.
pub open spec fn header_chars_upto(cols: Seq<Column>, n: int) -> Seq<char>
    decreases n,
{
    if n <= 0 {
        Seq::<char>::empty()
    } else {
        header_chars_upto(cols, n - 1) + text::left_aligned(
            cols[n - 1].title@,
            cols[n - 1].width as int,
        ) + seq![' ']
    }
}

/// One data line over the first `n` columns of a row.
pub open spec fn row_chars_upto(cols: Seq<Column>, row: Seq<Data>, n: int) -> Seq<char>
    decreases n,
{
    if n <= 0 {
        Seq::<char>::empty()
    } else {
        row_chars_upto(cols, row, n - 1) + text::left_aligned(
            cell_chars(row[n - 1]),
            cols[n - 1].width as int,
        ) + seq![' ']
    }
}

/// The data lines for rows `lo .. hi`, each ended by a newline.
pub open spec fn rows_chars_range(cols: Seq<Column>, rows: Seq<Seq<Data>>, lo: int, hi: int) -> Seq<
    char,
>
    decreases hi - lo,
{
    if hi <= lo {
        Seq::<char>::empty()
    } else {
        rows_chars_range(cols, rows, lo, hi - 1) + row_chars_upto(
            cols,
            rows[hi - 1],
            cols.len() as int,
        ) + seq!['\n']
    }
}

/// The full rendered table: header line, a separator of dashes one
/// short of the header line's length, then the rows from `lo` on.
pub open spec fn render_chars(cols: Seq<Column>, rows: Seq<Seq<Data>>, lo: int) -> Seq<char> {
    let header = header_chars_upto(cols, cols.len() as int);
    header + seq!['\n'] + text::repeat_char('-', header.len() - 1) + seq!['\n'] + rows_chars_range(
        cols,
        rows,
        lo,
        rows.len() as int,
    )
}

/// Appends one rendered cell: the cell's text left-aligned to `width`,
/// then the single-space column separator.
fn push_cell(out: &mut String, d: &Data, width: usize)
    ensures
        final(out)@ == old(out)@ + text::left_aligned(cell_chars(*d), width as int) + seq![' '],
{
    match d {
        Data::UInt(v) => {
            let mut tmp = String::new();
            text::push_u64(&mut tmp, *v);
            text::push_left_aligned(out, tmp.as_str(), width);
        },
        Data::Int(v) => {
            let mut tmp = String::new();
            text::push_i64(&mut tmp, *v);
            text::push_left_aligned(out, tmp.as_str(), width);
        },
        Data::Fixed(v) => {
            let mut tmp = String::new();
            text::push_fixed(&mut tmp, *v);
            text::push_left_aligned(out, tmp.as_str(), width);
        },
        Data::Text(s) => {
            text::push_left_aligned(out, s.as_str(), width);
        },
    }
    proof {
        reveal_strlit(" ");
    }
    out.append(" ");
    proof {
        assert(final(out)@ =~= old(out)@ + text::left_aligned(cell_chars(*d), width as int)
            + seq![' ']);
    }
}

impl Table {
    /// Rows agree with each other on the cell variant of every column.
    pub open spec fn rows_consistent(self) -> bool {
        forall|r1: int, r2: int, j: int|
            0 <= r1 < self.data@.len() && 0 <= r2 < self.data@.len() && 0 <= j
                < self.columns@.len() ==> same_variant(
                #[trigger] self.data@[r1][j],
                #[trigger] self.data@[r2][j],
            )
    }

    /// Table well-formedness: every stored row matches the column count,
    /// variants are columnwise consistent, and the configured sort and
    /// filter columns are in range.
    pub open spec fn wf(self) -> bool {
        &&& forall|r: int|
            0 <= r < self.data@.len() ==> (#[trigger] self.data@[r])@.len()
                == self.columns@.len()
        &&& self.rows_consistent()
        &&& (self.sort_by matches Some(c) ==> c < self.columns@.len())
        &&& (self.filter_by matches Some(c) ==> c < self.columns@.len())
    }

    /// A fresh table over the given columns, with no rows, sorting by
    /// the first column, no filter and no window.
    pub fn new(columns: Vec<Column>) -> (t: Table)
        requires
            columns@.len() > 0,
        ensures
            t.columns == columns,
            t.data@ =~= Seq::<Vec<Data>>::empty(),
            t.sort_by == Some(0usize),
            t.filter_by == None::<usize>,
            t.top == None::<usize>,
            t.wf(),
    {
        Table { columns, data: Vec::new(), sort_by: Some(0), filter_by: None, top: None }
    }

    /// Whether the filter drops this row: a filter column is configured
    /// and the row's cell there is empty.
    pub open spec fn filtered_out(self, row: Seq<Data>) -> bool {
        match self.filter_by {
            Some(c) => cell_empty(row[c as int]),
            None => false,
        }
    }

    /// Stores a row. A row whose length does not match the column count
    /// is rejected (`false`); a row whose cell at the configured filter
    /// column is empty is silently dropped, which still counts as
    /// success. Mismatched cell variants are a contract violation.
    pub fn add_row(&mut self, row: Vec<Data>) -> (r: bool)
        requires
            old(self).wf(),
            row@.len() == old(self).columns@.len() ==> forall|r0: int, j: int|
                0 <= r0 < old(self).data@.len() && 0 <= j < old(self).columns@.len()
                    ==> same_variant(#[trigger] old(self).data@[r0][j], row@[j]),
        ensures
            final(self).columns == old(self).columns,
            final(self).sort_by == old(self).sort_by,
            final(self).filter_by == old(self).filter_by,
            final(self).top == old(self).top,
            r == (row@.len() == old(self).columns@.len()),
            row_views(final(self).data@) == if row@.len() != old(self).columns@.len()
                || old(self).filtered_out(row@) {
                row_views(old(self).data@)
            } else {
                row_views(old(self).data@).push(row@)
            },
            final(self).wf(),
    {
        if row.len() != self.columns.len() {
            return false;
        }
        let drop = match self.filter_by {
            Some(c) => cell_empty_exec(&row[c]),
            None => false,
        };
        if !drop {
            let ghost before = self.data@;
            self.data.push(row);
            proof {
                assert(row_views(self.data@) =~= row_views(before).push(row@));
            }
        }
        true
    }

    /// The stored rows as the renderer orders them: stably sorted
    /// ascending by the configured sort column, or left as they are.
    pub open spec fn sorted_rows(self) -> Seq<Seq<Data>> {
        match self.sort_by {
            Some(c) => sort_rows(row_views(self.data@), c as int),
            None => row_views(self.data@),
        }
    }

    /// Index of the first row the "top N" window emits: the window
    /// keeps the last N rows of the ascending order, so the N highest.
    pub open spec fn window_start(self) -> int {
        match self.top {
            Some(n) => if self.data@.len() > n {
                self.data@.len() - n
            } else {
                0
            },
            None => 0,
        }
    }

    /// Renders the table: sorts the stored rows in place when a sort
    /// column is configured, then emits the header, the dash separator,
    /// and the windowed rows as fixed-width left-aligned text.
    pub fn display_table(&mut self) -> (r: String)
        requires
            old(self).wf(),
            old(self).columns@.len() > 0,
        ensures
            final(self).columns == old(self).columns,
            final(self).sort_by == old(self).sort_by,
            final(self).filter_by == old(self).filter_by,
            final(self).top == old(self).top,
            row_views(final(self).data@) == old(self).sorted_rows(),
            final(self).wf(),
            r@ == render_chars(
                old(self).columns@,
                old(self).sorted_rows(),
                old(self).window_start(),
            ),
    {
        let ghost orig = *old(self);
        if let Some(c) = self.sort_by {
            proof {
                assert forall|r0: int| 0 <= r0 < self.data@.len() implies c
                    < (#[trigger] self.data@[r0])@.len() by {
                    assert(self.data@[r0]@.len() == self.columns@.len());
                }
            }
            sort_rows_exec(&mut self.data, c);
            proof {
                let ov = row_views(orig.data@);
                lemma_sort_rows_membership(ov, c as int);
                assert forall|r0: int| 0 <= r0 < self.data@.len() implies (
                #[trigger] self.data@[r0])@.len() == self.columns@.len() by {
                    assert(row_views(self.data@)[r0] == self.data@[r0]@);
                    assert(sort_rows(ov, c as int).contains(self.data@[r0]@));
                    assert(ov.contains(self.data@[r0]@));
                    let w = choose|w: int| 0 <= w < ov.len() && ov[w] == self.data@[r0]@;
                    assert(orig.data@[w]@ == self.data@[r0]@);
                }
                assert forall|r1: int, r2: int, j: int|
                    0 <= r1 < self.data@.len() && 0 <= r2 < self.data@.len() && 0 <= j
                        < self.columns@.len() implies same_variant(
                    #[trigger] self.data@[r1][j],
                    #[trigger] self.data@[r2][j],
                ) by {
                    assert(row_views(self.data@)[r1] == self.data@[r1]@);
                    assert(row_views(self.data@)[r2] == self.data@[r2]@);
                    assert(sort_rows(ov, c as int).contains(self.data@[r1]@));
                    assert(sort_rows(ov, c as int).contains(self.data@[r2]@));
                    assert(ov.contains(self.data@[r1]@));
                    assert(ov.contains(self.data@[r2]@));
                    let w1 = choose|w: int| 0 <= w < ov.len() && ov[w] == self.data@[r1]@;
                    let w2 = choose|w: int| 0 <= w < ov.len() && ov[w] == self.data@[r2]@;
                    assert(orig.data@[w1]@ == self.data@[r1]@);
                    assert(orig.data@[w2]@ == self.data@[r2]@);
                    assert(same_variant(orig.data@[w1]@[j], orig.data@[w2]@[j]));
                }
            }
        }
        let ghost rows = row_views(self.data@);
        let mut out = String::new();

        // header line
        let ncols = self.columns.len();
        let mut j: usize = 0;
        while j < ncols
            invariant
                j <= ncols,
                ncols == self.columns@.len(),
                out@ == header_chars_upto(self.columns@, j as int),
            decreases ncols - j,
        {
            text::push_left_aligned(&mut out, self.columns[j].title.as_str(), self.columns[j].width);
            proof {
                reveal_strlit(" ");
            }
            out.append(" ");
            j = j + 1;
            proof {
                assert(out@ =~= header_chars_upto(self.columns@, j as int));
            }
        }
        let header_len = out.as_str().unicode_len();
        proof {
            assert(header_chars_upto(self.columns@, ncols as int).len() >= 1) by {
                assert(ncols >= 1);
            }
        }
        out.append("\n");
        text::push_dashes(&mut out, header_len - 1);
        out.append("\n");
        proof {
            reveal_strlit("\n");
        }
        let ghost head_part = out@;
        proof {
            let header = header_chars_upto(self.columns@, ncols as int);
            assert(head_part =~= header + seq!['\n'] + text::repeat_char('-', header.len() - 1)
                + seq!['\n']);
        }

        // windowed data lines
        let nrows = self.data.len();
        let lo: usize = match self.top {
            Some(n) => if nrows > n {
                nrows - n
            } else {
                0
            },
            None => 0,
        };
        let mut r: usize = lo;
        while r < nrows
            invariant
                lo <= r <= nrows,
                nrows == self.data@.len(),
                row_views(self.data@) == rows,
                self.columns@ == orig.columns@,
                ncols == self.columns@.len(),
                forall|r0: int|
                    0 <= r0 < self.data@.len() ==> (#[trigger] self.data@[r0])@.len()
                        == self.columns@.len(),
                out@ == head_part + rows_chars_range(self.columns@, rows, lo as int, r as int),
            decreases nrows - r,
        {
            let mut jj: usize = 0;
            let ghost row_base = out@;
            while jj < ncols
                invariant
                    jj <= ncols,
                    r < self.data@.len(),
                    ncols == self.columns@.len(),
                    self.data@[r as int]@.len() == ncols,
                    out@ == row_base + row_chars_upto(
                        self.columns@,
                        self.data@[r as int]@,
                        jj as int,
                    ),
                decreases ncols - jj,
            {
                push_cell(&mut out, &self.data[r][jj], self.columns[jj].width);
                jj = jj + 1;
                proof {
                    assert(out@ =~= row_base + row_chars_upto(
                        self.columns@,
                        self.data@[r as int]@,
                        jj as int,
                    ));
                }
            }
            proof {
                reveal_strlit("\n");
            }
            out.append("\n");
            r = r + 1;
            proof {
                assert(rows[r - 1] == self.data@[r - 1]@);
                assert(out@ =~= head_part + rows_chars_range(
                    self.columns@,
                    rows,
                    lo as int,
                    r as int,
                ));
            }
        }
        proof {
            assert(out@ =~= render_chars(orig.columns@, orig.sorted_rows(), orig.window_start()));
        }
        out
    }

    /// Resolves a user-supplied column description: a numeric index in
    /// range is taken directly, otherwise the first column whose title
    /// starts with the text. `None` is a configuration error that the
    /// caller must surface, not ignore.
    pub fn column_index_by_name(&self, s: &str) -> (r: Option<usize>)
        ensures
            (match r {
                Some(ix) => spec_column_index(self.columns@, s@) == Some(ix as int) && ix
                    < self.columns@.len(),
                None => spec_column_index(self.columns@, s@) is None,
            }),
    {
        let n = s.unicode_len();
        let mut digits_ok = n > 0;
        let ghost mut bad: int = 0;
        let mut i: usize = 0;
        while i < n
            invariant
                i <= n,
                n == s@.len(),
                digits_ok ==> n > 0 && forall|k: int| 0 <= k < i ==> '0' <= #[trigger] s@[k] <= '9',
                !digits_ok ==> n == 0 || (0 <= bad < i && !('0' <= s@[bad] <= '9')),
            decreases n - i,
        {
            let c = s.get_char(i);
            if !(c >= '0' && c <= '9') {
                digits_ok = false;
                proof {
                    bad = i as int;
                }
            }
            i = i + 1;
        }
        proof {
            assert(digits_ok == text::is_dec_chars(s@));
        }
        if digits_ok {
            let mut val: usize = 0;
            let mut big = false;
            let mut j: usize = 0;
            while j < n
                invariant
                    j <= n,
                    n == s@.len(),
                    text::is_dec_chars(s@),
                    !big ==> val == text::dec_val_upto(s@, j as int),
                    big ==> text::dec_val_upto(s@, j as int) > usize::MAX,
                decreases n - j,
            {
                let c = s.get_char(j);
                let d: usize = (c as usize) - 48;
                if big || val > (usize::MAX - d) / 10 {
                    big = true;
                } else {
                    val = val * 10 + d;
                }
                j = j + 1;
            }
            if !big && val < self.columns.len() {
                return Some(val);
            }
            let ncols0: usize = self.columns.len();
            proof {
                assert(text::dec_val(s@) >= ncols0 as int);
            }
        }
        let ncols = self.columns.len();
        let mut k: usize = 0;
        while k < ncols
            invariant
                k <= ncols,
                ncols == self.columns@.len(),
                spec_column_index(self.columns@, s@) == prefix_match_from(
                    self.columns@,
                    s@,
                    k as int,
                ),
            decreases ncols - k,
        {
            if text::str_starts_with(self.columns[k].title.as_str(), s) {
                return Some(k);
            }
            k = k + 1;
        }
        None
    }

    /// Discards the stored rows; the configuration stays for the next
    /// reporting cycle.
    pub fn clear_data(&mut self)
        ensures
            final(self).columns == old(self).columns,
            final(self).sort_by == old(self).sort_by,
            final(self).filter_by == old(self).filter_by,
            final(self).top == old(self).top,
            final(self).data@ =~= Seq::<Vec<Data>>::empty(),
            old(self).wf() ==> final(self).wf(),
    {
        self.data.clear();
    }
}

} // verus!
