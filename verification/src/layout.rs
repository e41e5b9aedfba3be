//! Layout model of the table engine. A table's state is abstracted to a
//! [`TableModel`]; [`layout_of`] normalizes it to a rectangular grid (ragged
//! rows are padded with empty cells), and the spec functions here say, cell
//! by cell and line by line, what the rendered text is: column widths are
//! distributed over the configured total width in proportion to natural
//! content widths (with a minimum of one column), cells wrap at the column
//! width, every cell of a row renders with the row's line count, and border
//! lines are drawn per the preset's glyph set.

use crate::style::{glyphs_spec, Preset};
use crate::text::{
    cell_chunks_of, join_lines, line_count, max_line_len, max_nat, pad_to, repeat_char,
    split_lines,
};
use vstd::prelude::*;

verus! {

/// Mathematical model of a table: header cells, row cells, the configured
/// total width, and the border preset.
pub struct TableModel {
    pub header: Seq<Seq<char>>,
    pub rows: Seq<Seq<Seq<char>>>,
    pub width: Option<u16>,
    pub preset: Preset,
}

/// Cell count of the widest row.
pub open spec fn rows_max_len(rows: Seq<Seq<Seq<char>>>) -> nat
    decreases rows.len(),
{
    if rows.len() == 0 {
        0
    } else {
        max_nat(rows_max_len(rows.drop_last()), rows.last().len())
    }
}

/// Number of rendered columns: the widest of the header and all rows.
pub open spec fn ncols_of(m: TableModel) -> nat {
    max_nat(m.header.len(), rows_max_len(m.rows))
}

/// The normalized (rectangular) form of a table: every row and the header
/// hold exactly `nc` cells, missing cells filled with empty content.
pub struct Layout {
    pub nc: nat,
    pub has_header: bool,
    pub header: Seq<Seq<char>>,
    pub cells: Seq<Seq<Seq<char>>>,
    pub width: Option<u16>,
    pub preset: Preset,
}

pub open spec fn layout_of(m: TableModel) -> Layout {
    Layout {
        nc: ncols_of(m),
        has_header: m.header.len() > 0,
        header: Seq::new(
            ncols_of(m),
            |j: int|
                if 0 <= j < m.header.len() {
                    m.header[j]
                } else {
                    Seq::empty()
                },
        ),
        cells: Seq::new(
            m.rows.len(),
            |i: int|
                Seq::new(
                    ncols_of(m),
                    |j: int|
                        if 0 <= j < m.rows[i].len() {
                            m.rows[i][j]
                        } else {
                            Seq::empty()
                        },
                ),
        ),
        width: m.width,
        preset: m.preset,
    }
}

/// Cell `j` of a cell list, empty when out of range.
pub open spec fn src_cell(src: Seq<Seq<char>>, j: int) -> Seq<char> {
    if 0 <= j < src.len() {
        src[j]
    } else {
        Seq::empty()
    }
}

/// Row `i` of the grid, empty when out of range.
pub open spec fn row_cells(g: Layout, i: int) -> Seq<Seq<char>> {
    if 0 <= i < g.cells.len() {
        g.cells[i]
    } else {
        Seq::empty()
    }
}

/// Natural (unwrapped) width of one cell: its longest content line.
pub open spec fn cell_nat_w(c: Seq<char>) -> nat {
    max_line_len(split_lines(c))
}

/// Widest natural cell width in column `j` among data rows `i..`.
pub open spec fn col_data_w(g: Layout, j: int, i: int) -> nat
    decreases g.cells.len() - i,
{
    if i < 0 || i >= g.cells.len() {
        0
    } else {
        max_nat(cell_nat_w(src_cell(g.cells[i], j)), col_data_w(g, j, i + 1))
    }
}

/// Natural width of column `j` over header and data, at least one.
pub open spec fn col_nat(g: Layout, j: int) -> nat {
    max_nat(
        1,
        max_nat(
            if g.has_header {
                cell_nat_w(src_cell(g.header, j))
            } else {
                0
            },
            col_data_w(g, j, 0),
        ),
    )
}

/// Character columns taken by padding and vertical borders, outside the
/// cell content itself.
pub open spec fn overhead(g: Layout) -> int {
    2 * (g.nc as int) + (if glyphs_spec(g.preset).outer_v {
        2int
    } else {
        0int
    }) + (if glyphs_spec(g.preset).inner_v && g.nc >= 1 {
        g.nc as int - 1
    } else {
        0int
    })
}

/// Natural column width capped at the available content width.
pub open spec fn capped_w(g: Layout, j: int, av: nat) -> nat {
    if col_nat(g, j) <= av {
        col_nat(g, j)
    } else {
        av
    }
}

/// Sum of capped widths of columns `j..`.
pub open spec fn sum_capped(g: Layout, j: int, av: nat) -> nat
    decreases g.nc - j,
{
    if j < 0 || j >= g.nc {
        0
    } else {
        capped_w(g, j, av) + sum_capped(g, j + 1, av)
    }
}

/// The rendered width of column `j`. With no configured width every column
/// takes its natural width. With a configured width, the content width left
/// after overhead is distributed: columns take their capped natural widths
/// when those fit, and otherwise shares proportional to them, with a
/// minimum of one; a width too small for one column per content column
/// degenerates to one character per column.
pub open spec fn col_width(g: Layout, j: int) -> nat {
    match g.width {
        Option::None => col_nat(g, j),
        Option::Some(w) => {
            if (w as int) < overhead(g) + g.nc {
                1
            } else {
                let av = (w as int - overhead(g)) as nat;
                let s = sum_capped(g, 0, av);
                if s <= av {
                    capped_w(g, j, av)
                } else {
                    max_nat(1, (av * capped_w(g, j, av)) / s)
                }
            }
        },
    }
}

/// The wrapped content lines of the cell in column `j` of a cell list.
pub open spec fn chunks_at(g: Layout, src: Seq<Seq<char>>, j: int) -> Seq<Seq<char>> {
    cell_chunks_of(src_cell(src, j), col_width(g, j))
}

/// Rendered line count of a row: its tallest wrapped cell, at least one.
pub open spec fn row_h_from(g: Layout, src: Seq<Seq<char>>, j: int) -> nat
    decreases g.nc - j,
{
    if j < 0 || j >= g.nc {
        1
    } else {
        max_nat(chunks_at(g, src, j).len(), row_h_from(g, src, j + 1))
    }
}

pub open spec fn row_h(g: Layout, src: Seq<Seq<char>>) -> nat {
    row_h_from(g, src, 0)
}

/// Line `k` of the cell in column `j`, padded to the column width; cells
/// shorter than the row render blank lines.
pub open spec fn chunk_line(g: Layout, src: Seq<Seq<char>>, j: int, k: int) -> Seq<char> {
    let cs = chunks_at(g, src, j);
    let c = if 0 <= k < cs.len() {
        cs[k]
    } else {
        Seq::empty()
    };
    pad_to(c, col_width(g, j))
}

/// The cell segments of one rendered row line, from column `j` on: each
/// cell padded and framed by one space either side, with a vertical glyph
/// between columns when the preset draws inner verticals.
pub open spec fn cells_part(g: Layout, src: Seq<Seq<char>>, k: int, j: int) -> Seq<char>
    decreases g.nc - j,
{
    if j < 0 || j >= g.nc {
        Seq::empty()
    } else {
        seq![' '] + chunk_line(g, src, j, k) + seq![' '] + (if glyphs_spec(g.preset).inner_v && j
            + 1 < g.nc {
            seq![glyphs_spec(g.preset).vert]
        } else {
            Seq::empty()
        }) + cells_part(g, src, k, j + 1)
    }
}

/// The outer vertical border glyph, when the preset draws one.
pub open spec fn opt_outer(g: Layout) -> Seq<char> {
    if glyphs_spec(g.preset).outer_v {
        seq![glyphs_spec(g.preset).vert]
    } else {
        Seq::empty()
    }
}

/// One full rendered line of a row.
pub open spec fn row_line(g: Layout, src: Seq<Seq<char>>, k: int) -> Seq<char> {
    opt_outer(g) + cells_part(g, src, k, 0) + opt_outer(g)
}

/// All rendered lines of one row.
pub open spec fn row_block(g: Layout, src: Seq<Seq<char>>) -> Seq<Seq<char>> {
    Seq::new(row_h(g, src), |k: int| row_line(g, src, k))
}

/// The column segments of a border line from column `j` on: a horizontal
/// run as wide as the padded column, a junction glyph between columns when
/// the preset draws inner verticals, a plain horizontal otherwise.
pub open spec fn border_part(g: Layout, f: char, mjc: char, j: int) -> Seq<char>
    decreases g.nc - j,
{
    if j < 0 || j >= g.nc {
        Seq::empty()
    } else {
        repeat_char(f, (col_width(g, j) + 2) as nat) + (if j + 1 < g.nc {
            seq![
                if glyphs_spec(g.preset).inner_v {
                    mjc
                } else {
                    f
                },
            ]
        } else {
            Seq::empty()
        }) + border_part(g, f, mjc, j + 1)
    }
}

/// One full border line with the given edge, fill and junction glyphs.
pub open spec fn border_line_of(g: Layout, l: char, f: char, mjc: char, r: char) -> Seq<char> {
    (if glyphs_spec(g.preset).outer_v {
        seq![l]
    } else {
        Seq::empty()
    }) + border_part(g, f, mjc, 0) + (if glyphs_spec(g.preset).outer_v {
        seq![r]
    } else {
        Seq::empty()
    })
}

pub open spec fn top_border(g: Layout) -> Seq<char> {
    let gl = glyphs_spec(g.preset);
    border_line_of(g, gl.tl, gl.horiz, gl.tm, gl.tr)
}

pub open spec fn mid_border(g: Layout) -> Seq<char> {
    let gl = glyphs_spec(g.preset);
    border_line_of(g, gl.ml, gl.horiz, gl.mm, gl.mr)
}

pub open spec fn bot_border(g: Layout) -> Seq<char> {
    let gl = glyphs_spec(g.preset);
    border_line_of(g, gl.bl, gl.horiz, gl.bm, gl.br)
}

/// Rendered lines of data rows `i..`, with a separator line between
/// consecutive rows when the preset draws them.
pub open spec fn body_lines(g: Layout, i: int) -> Seq<Seq<char>>
    decreases g.cells.len() - i,
{
    if i < 0 || i >= g.cells.len() {
        Seq::empty()
    } else {
        (if i > 0 && glyphs_spec(g.preset).row_sep {
            seq![mid_border(g)]
        } else {
            Seq::empty()
        }) + row_block(g, row_cells(g, i)) + body_lines(g, i + 1)
    }
}

/// Every rendered line of the table, top to bottom. A table with no
/// columns renders as nothing.
pub open spec fn all_lines(g: Layout) -> Seq<Seq<char>> {
    if g.nc == 0 {
        Seq::empty()
    } else {
        (if glyphs_spec(g.preset).top {
            seq![top_border(g)]
        } else {
            Seq::empty()
        }) + (if g.has_header {
            row_block(g, g.header) + (if glyphs_spec(g.preset).header_sep {
                seq![mid_border(g)]
            } else {
                Seq::empty()
            })
        } else {
            Seq::empty()
        }) + body_lines(g, 0) + (if glyphs_spec(g.preset).bottom {
            seq![bot_border(g)]
        } else {
            Seq::empty()
        })
    }
}

pub open spec fn render_layout(g: Layout) -> Seq<char> {
    join_lines(all_lines(g))
}

/// The complete rendered text of a table.
pub open spec fn spec_render(m: TableModel) -> Seq<char> {
    render_layout(layout_of(m))
}

/// The number of newline-delimited lines of the rendered text.
pub open spec fn spec_height(m: TableModel) -> nat {
    line_count(spec_render(m))
}

/// A row renders at least one line.
pub proof fn lemma_row_h_pos(g: Layout, src: Seq<Seq<char>>, j: int)
    ensures
        row_h_from(g, src, j) >= 1,
    decreases g.nc - j,
{
    if j < 0 || j >= g.nc {
    } else {
        lemma_row_h_pos(g, src, j + 1);
    }
}

/// No preset glyph is a newline.
pub proof fn lemma_glyphs_no_newline(p: Preset)
    ensures
        glyphs_spec(p).horiz != '\n',
        glyphs_spec(p).vert != '\n',
        glyphs_spec(p).tl != '\n',
        glyphs_spec(p).tm != '\n',
        glyphs_spec(p).tr != '\n',
        glyphs_spec(p).ml != '\n',
        glyphs_spec(p).mm != '\n',
        glyphs_spec(p).mr != '\n',
        glyphs_spec(p).bl != '\n',
        glyphs_spec(p).bm != '\n',
        glyphs_spec(p).br != '\n',
{
}

proof fn lemma_concat_no_newline(a: Seq<char>, b: Seq<char>)
    requires
        crate::text::no_newline(a),
        crate::text::no_newline(b),
    ensures
        crate::text::no_newline(a + b),
{
    assert forall|i: int| 0 <= i < (a + b).len() implies (a + b)[i] != '\n' by {
        if i < a.len() {
            assert((a + b)[i] == a[i]);
        } else {
            assert((a + b)[i] == b[i - a.len()]);
        }
    }
}

proof fn lemma_chunk_line_no_newline(g: Layout, src: Seq<Seq<char>>, j: int, k: int)
    ensures
        crate::text::no_newline(chunk_line(g, src, j, k)),
{
    crate::text::lemma_cell_chunks_no_newline(src_cell(src, j), col_width(g, j));
    let cs = chunks_at(g, src, j);
    let c = if 0 <= k < cs.len() {
        cs[k]
    } else {
        Seq::<char>::empty()
    };
    assert(crate::text::no_newline(c));
    if c.len() < col_width(g, j) {
        lemma_concat_no_newline(c, repeat_char(' ', (col_width(g, j) - c.len()) as nat));
    }
}

proof fn lemma_cells_part_no_newline(g: Layout, src: Seq<Seq<char>>, k: int, j: int)
    ensures
        crate::text::no_newline(cells_part(g, src, k, j)),
        0 <= j < g.nc ==> cells_part(g, src, k, j).len() >= 2,
    decreases g.nc - j,
{
    lemma_glyphs_no_newline(g.preset);
    if j < 0 || j >= g.nc {
    } else {
        lemma_cells_part_no_newline(g, src, k, j + 1);
        lemma_chunk_line_no_newline(g, src, j, k);
        let sep = if glyphs_spec(g.preset).inner_v && j + 1 < g.nc {
            seq![glyphs_spec(g.preset).vert]
        } else {
            Seq::<char>::empty()
        };
        lemma_concat_no_newline(seq![' '], chunk_line(g, src, j, k));
        lemma_concat_no_newline(seq![' '] + chunk_line(g, src, j, k), seq![' ']);
        lemma_concat_no_newline(seq![' '] + chunk_line(g, src, j, k) + seq![' '], sep);
        lemma_concat_no_newline(
            seq![' '] + chunk_line(g, src, j, k) + seq![' '] + sep,
            cells_part(g, src, k, j + 1),
        );
    }
}

proof fn lemma_row_line_wellformed(g: Layout, src: Seq<Seq<char>>, k: int)
    requires
        g.nc >= 1,
    ensures
        crate::text::no_newline(row_line(g, src, k)),
        row_line(g, src, k).len() >= 1,
{
    lemma_glyphs_no_newline(g.preset);
    lemma_cells_part_no_newline(g, src, k, 0);
    assert(crate::text::no_newline(opt_outer(g)));
    lemma_concat_no_newline(opt_outer(g), cells_part(g, src, k, 0));
    lemma_concat_no_newline(opt_outer(g) + cells_part(g, src, k, 0), opt_outer(g));
}

proof fn lemma_border_part_wellformed(g: Layout, f: char, mjc: char, j: int)
    requires
        f != '\n',
        mjc != '\n',
    ensures
        crate::text::no_newline(border_part(g, f, mjc, j)),
        0 <= j < g.nc ==> border_part(g, f, mjc, j).len() >= 2,
    decreases g.nc - j,
{
    if j < 0 || j >= g.nc {
    } else {
        lemma_border_part_wellformed(g, f, mjc, j + 1);
        let seg = repeat_char(f, (col_width(g, j) + 2) as nat);
        assert(crate::text::no_newline(seg));
        let mid = if j + 1 < g.nc {
            seq![
                if glyphs_spec(g.preset).inner_v {
                    mjc
                } else {
                    f
                },
            ]
        } else {
            Seq::<char>::empty()
        };
        assert(crate::text::no_newline(mid));
        lemma_concat_no_newline(seg, mid);
        lemma_concat_no_newline(seg + mid, border_part(g, f, mjc, j + 1));
    }
}

proof fn lemma_border_line_wellformed(g: Layout, l: char, f: char, mjc: char, r: char)
    requires
        g.nc >= 1,
        l != '\n',
        f != '\n',
        mjc != '\n',
        r != '\n',
    ensures
        crate::text::no_newline(border_line_of(g, l, f, mjc, r)),
        border_line_of(g, l, f, mjc, r).len() >= 1,
{
    lemma_border_part_wellformed(g, f, mjc, 0);
    let lo = if glyphs_spec(g.preset).outer_v {
        seq![l]
    } else {
        Seq::<char>::empty()
    };
    let ro = if glyphs_spec(g.preset).outer_v {
        seq![r]
    } else {
        Seq::<char>::empty()
    };
    assert(crate::text::no_newline(lo));
    assert(crate::text::no_newline(ro));
    lemma_concat_no_newline(lo, border_part(g, f, mjc, 0));
    lemma_concat_no_newline(lo + border_part(g, f, mjc, 0), ro);
}

/// Every line of one rendered segment is newline-free and nonempty.
pub open spec fn lines_wellformed(ls: Seq<Seq<char>>) -> bool {
    forall|t: int|
        0 <= t < ls.len() ==> crate::text::no_newline(#[trigger] ls[t]) && ls[t].len() >= 1
}

proof fn lemma_concat_lines_wellformed(a: Seq<Seq<char>>, b: Seq<Seq<char>>)
    requires
        lines_wellformed(a),
        lines_wellformed(b),
    ensures
        lines_wellformed(a + b),
{
    assert forall|t: int|
        0 <= t < (a + b).len() implies crate::text::no_newline(#[trigger] (a + b)[t]) && (a
        + b)[t].len() >= 1 by {
        if t < a.len() {
            assert((a + b)[t] == a[t]);
        } else {
            assert((a + b)[t] == b[t - a.len()]);
        }
    }
}

proof fn lemma_row_block_wellformed(g: Layout, src: Seq<Seq<char>>)
    requires
        g.nc >= 1,
    ensures
        lines_wellformed(row_block(g, src)),
{
    assert forall|t: int|
        0 <= t < row_block(g, src).len() implies crate::text::no_newline(
        #[trigger] row_block(g, src)[t],
    ) && row_block(g, src)[t].len() >= 1 by {
        lemma_row_line_wellformed(g, src, t);
    }
}

proof fn lemma_mid_border_wellformed(g: Layout)
    requires
        g.nc >= 1,
    ensures
        lines_wellformed(seq![mid_border(g)]),
{
    lemma_glyphs_no_newline(g.preset);
    let gl = glyphs_spec(g.preset);
    lemma_border_line_wellformed(g, gl.ml, gl.horiz, gl.mm, gl.mr);
}

proof fn lemma_body_lines_wellformed(g: Layout, i: int)
    requires
        g.nc >= 1,
    ensures
        lines_wellformed(body_lines(g, i)),
    decreases g.cells.len() - i,
{
    if i < 0 || i >= g.cells.len() {
    } else {
        lemma_body_lines_wellformed(g, i + 1);
        lemma_row_block_wellformed(g, row_cells(g, i));
        lemma_mid_border_wellformed(g);
        let sep = if i > 0 && glyphs_spec(g.preset).row_sep {
            seq![mid_border(g)]
        } else {
            Seq::<Seq<char>>::empty()
        };
        assert(lines_wellformed(sep));
        lemma_concat_lines_wellformed(sep, row_block(g, row_cells(g, i)));
        lemma_concat_lines_wellformed(sep + row_block(g, row_cells(g, i)), body_lines(g, i + 1));
    }
}

/// Every rendered line is newline-free and nonempty.
pub proof fn lemma_all_lines_wellformed(g: Layout)
    ensures
        lines_wellformed(all_lines(g)),
{
    if g.nc == 0 {
    } else {
        lemma_glyphs_no_newline(g.preset);
        let gl = glyphs_spec(g.preset);
        let topopt = if gl.top {
            seq![top_border(g)]
        } else {
            Seq::<Seq<char>>::empty()
        };
        let botopt = if gl.bottom {
            seq![bot_border(g)]
        } else {
            Seq::<Seq<char>>::empty()
        };
        lemma_border_line_wellformed(g, gl.tl, gl.horiz, gl.tm, gl.tr);
        lemma_border_line_wellformed(g, gl.bl, gl.horiz, gl.bm, gl.br);
        assert(lines_wellformed(topopt));
        assert(lines_wellformed(botopt));
        let hpart = if g.has_header {
            row_block(g, g.header) + (if gl.header_sep {
                seq![mid_border(g)]
            } else {
                Seq::<Seq<char>>::empty()
            })
        } else {
            Seq::<Seq<char>>::empty()
        };
        lemma_row_block_wellformed(g, g.header);
        lemma_mid_border_wellformed(g);
        if g.has_header {
            let hsep = if gl.header_sep {
                seq![mid_border(g)]
            } else {
                Seq::<Seq<char>>::empty()
            };
            lemma_concat_lines_wellformed(row_block(g, g.header), hsep);
        }
        assert(lines_wellformed(hpart));
        lemma_body_lines_wellformed(g, 0);
        lemma_concat_lines_wellformed(topopt, hpart);
        lemma_concat_lines_wellformed(topopt + hpart, body_lines(g, 0));
        lemma_concat_lines_wellformed(topopt + hpart + body_lines(g, 0), botopt);
    }
}

/// An empty cell has natural width zero.
pub proof fn lemma_cell_nat_w_empty()
    ensures
        cell_nat_w(Seq::<char>::empty()) == 0,
{
    let ls = seq![Seq::<char>::empty()];
    assert(split_lines(Seq::<char>::empty()) == ls);
    assert(ls.drop_last() =~~= Seq::<Seq<char>>::empty());
    assert(max_line_len(ls) == max_nat(max_line_len(ls.drop_last()), ls.last().len()));
}

} // verus!
