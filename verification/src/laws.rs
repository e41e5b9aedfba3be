//! Table-engine laws, each proved over the rendering model: rendering is
//! deterministic, wrapping loses no content, ragged rows render as if
//! padded with empty cells, and unknown style names fall back to the
//! default preset's rendering.

use crate::layout::{
    layout_of, ncols_of, rows_max_len, spec_height, spec_render, TableModel,
};
use crate::style::{parse_style, Preset};
use crate::text::{
    cell_chunks_of, concat_all, join_lines, lemma_split_join, lemma_wrap_all_concat,
    max_nat, split_lines,
};
use vstd::prelude::*;

verus! {

/// Rendering is idempotent: any two renderings of the same (unmutated)
/// table state are identical.
pub proof fn lemma_render_idempotent(m: TableModel, r1: Seq<char>, r2: Seq<char>)
    requires
        r1 == spec_render(m),
        r2 == spec_render(m),
    ensures
        r1 == r2,
{
}

/// Wrapping a cell to any column width loses no content: the wrapped
/// chunks concatenate to exactly the characters of the cell's lines, and
/// the lines themselves join back to the original cell text.
pub proof fn lemma_wrap_preserves_content(c: Seq<char>, w: nat)
    ensures
        concat_all(cell_chunks_of(c, w)) == concat_all(split_lines(c)),
        join_lines(split_lines(c)) == c,
{
    lemma_wrap_all_concat(split_lines(c), w);
    lemma_split_join(c);
}

/// `m` with every row padded with empty cells up to the table's column
/// count.
pub open spec fn pad_rows(m: TableModel) -> TableModel {
    TableModel {
        rows: Seq::new(
            m.rows.len(),
            |i: int|
                m.rows[i] + Seq::new(
                    (ncols_of(m) - m.rows[i].len()) as nat,
                    |t: int| Seq::<char>::empty(),
                ),
        ),
        ..m
    }
}

proof fn lemma_rows_max_len_bound(rows: Seq<Seq<Seq<char>>>)
    ensures
        forall|i: int| 0 <= i < rows.len() ==> (#[trigger] rows[i]).len() <= rows_max_len(rows),
    decreases rows.len(),
{
    if rows.len() > 0 {
        lemma_rows_max_len_bound(rows.drop_last());
        assert forall|i: int| 0 <= i < rows.len() implies (#[trigger] rows[i]).len()
            <= rows_max_len(rows) by {
            if i < rows.len() - 1 {
                assert(rows.drop_last()[i] == rows[i]);
            }
        }
    }
}

proof fn lemma_rows_max_len_const(rows: Seq<Seq<Seq<char>>>, l: nat)
    requires
        rows.len() > 0,
        forall|i: int| 0 <= i < rows.len() ==> (#[trigger] rows[i]).len() == l,
    ensures
        rows_max_len(rows) == l,
    decreases rows.len(),
{
    if rows.len() == 1 {
        assert(rows.drop_last() =~~= Seq::<Seq<Seq<char>>>::empty());
        assert(rows_max_len(rows.drop_last()) == 0);
        assert(rows.last().len() == l);
    } else {
        assert(forall|i: int|
            0 <= i < rows.drop_last().len() ==> (#[trigger] rows.drop_last()[i]).len() == l);
        lemma_rows_max_len_const(rows.drop_last(), l);
        assert(rows.last().len() == l);
    }
}

/// Ragged-row tolerance: a table renders exactly as if every row had been
/// padded with empty cells to the full column count. A row shorter than
/// the header therefore renders without error, its missing cells empty.
pub proof fn lemma_ragged_rows_render_as_padded(m: TableModel)
    ensures
        spec_render(pad_rows(m)) == spec_render(m),
        spec_height(pad_rows(m)) == spec_height(m),
{
    let p = pad_rows(m);
    let nc = ncols_of(m);
    lemma_rows_max_len_bound(m.rows);
    if m.rows.len() == 0 {
        assert(p.rows =~~= m.rows);
        assert(ncols_of(p) == ncols_of(m));
    } else {
        assert forall|i: int| 0 <= i < p.rows.len() implies (#[trigger] p.rows[i]).len()
            == nc by {
            assert(m.rows[i].len() <= rows_max_len(m.rows));
        }
        lemma_rows_max_len_const(p.rows, nc);
        assert(ncols_of(p) == max_nat(m.header.len(), nc));
        assert(ncols_of(p) == nc);
    }
    assert(layout_of(p).header =~~= layout_of(m).header);
    assert forall|i: int| 0 <= i < p.rows.len() implies layout_of(p).cells[i]
        =~~= layout_of(m).cells[i] by {
        assert forall|j: int| 0 <= j < nc implies layout_of(p).cells[i][j] == layout_of(
            m,
        ).cells[i][j] by {
            if j < m.rows[i].len() {
                assert(p.rows[i][j] == m.rows[i][j]);
            } else {
                assert(p.rows[i][j] =~= Seq::<char>::empty());
            }
        }
    }
    assert(layout_of(p).cells =~~= layout_of(m).cells);
    assert(layout_of(p) == layout_of(m));
}

/// Style fallback: every name outside the recognized set selects the
/// default preset, so setting an unknown style renders identically to the
/// default-preset rendering.
pub proof fn lemma_unknown_style_falls_back(m: TableModel, name: Seq<char>)
    requires
        name != "ascii"@,
        name != "modern"@,
        name != "rounded"@,
        name != "borders_only"@,
        name != "horizontal_only"@,
        name != "no_borders"@,
    ensures
        parse_style(name) == Preset::Modern,
        spec_render(TableModel { preset: parse_style(name), ..m }) == spec_render(
            TableModel { preset: Preset::Modern, ..m },
        ),
{
}

} // verus!
