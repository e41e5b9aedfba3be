//! The table engine: owns header and row cells, a configured total width
//! and a border preset, and renders the table as a single multi-line text
//! block. Rendering is pure: it never mutates the stored state, and its
//! result is pinned, character for character, by [`spec_render`].

use crate::ansi::{conv_spec, convert_chars};
use crate::layout::{
    all_lines, bot_border, border_line_of, border_part, capped_w, cells_part, chunk_line,
    chunks_at, col_data_w, col_nat, col_width, body_lines, layout_of, mid_border, ncols_of,
    opt_outer, overhead, row_block, row_cells, row_h, row_h_from, row_line, rows_max_len,
    spec_height, spec_render, src_cell, sum_capped, top_border, Layout, TableModel,
};
use crate::style::{glyphs_of, glyphs_spec, parse_style, parse_style_exec, Preset};
use crate::text::{
    cell_width, chars_to_string, chunks_of_cell, extend_chars, join_exec, lemma_join_line_count,
    line_count, max_nat, pad_to, push_repeat, repeat_char, str_to_chars,
};
use vstd::prelude::*;

verus! {

/// A table under construction: header cells, data rows, optional target
/// width, and the border preset. Mutable only through append and
/// configuration calls; rendering reads the state and never changes it.
pub struct TableWrapper {
    header: Vec<Vec<char>>,
    rows: Vec<Vec<Vec<char>>>,
    width: Option<u16>,
    preset: Preset,
}

impl View for TableWrapper {
    type V = TableModel;

    closed spec fn view(&self) -> TableModel {
        TableModel {
            header: self.header.deep_view(),
            rows: self.rows.deep_view(),
            width: self.width,
            preset: self.preset,
        }
    }
}

fn strings_to_cells(cells: Vec<String>) -> (r: Vec<Vec<char>>)
    ensures
        r.deep_view() == cells.deep_view(),
{
    let mut r: Vec<Vec<char>> = Vec::new();
    let mut i: usize = 0;
    while i < cells.len()
        invariant
            i <= cells.len(),
            r.deep_view() == cells.deep_view().take(i as int),
        decreases cells.len() - i,
    {
        let v = str_to_chars(cells[i].as_str());
        let ghost prev = r.deep_view();
        r.push(v);
        proof {
            assert(r.deep_view() =~~= prev.push(cells@[i as int]@));
            assert(cells.deep_view().take(i + 1 as int) =~~= cells.deep_view().take(
                i as int,
            ).push(cells@[i as int]@));
        }
        i += 1;
    }
    proof {
        assert(cells.deep_view().take(cells@.len() as int) =~~= cells.deep_view());
    }
    r
}

fn make_border(
    widths: &Vec<usize>,
    nc: usize,
    l: char,
    f: char,
    mjc: char,
    r: char,
    outer: bool,
    inner: bool,
    Ghost(g): Ghost<Layout>,
) -> (out: Vec<char>)
    requires
        nc as nat == g.nc,
        1 <= nc,
        widths@.len() == nc,
        forall|j: int| 0 <= j < nc ==> (#[trigger] widths@[j]) as nat == col_width(g, j),
        outer == glyphs_spec(g.preset).outer_v,
        inner == glyphs_spec(g.preset).inner_v,
    ensures
        out@ == border_line_of(g, l, f, mjc, r),
{
    let ghost lo = if outer {
        seq![l]
    } else {
        Seq::<char>::empty()
    };
    let mut out: Vec<char> = Vec::new();
    if outer {
        out.push(l);
    }
    proof {
        assert(out@ + border_part(g, f, mjc, 0) =~= lo + border_part(g, f, mjc, 0));
    }
    let mut j: usize = 0;
    while j < nc
        invariant
            j <= nc,
            nc as nat == g.nc,
            widths@.len() == nc,
            forall|t: int| 0 <= t < nc ==> (#[trigger] widths@[t]) as nat == col_width(g, t),
            inner == glyphs_spec(g.preset).inner_v,
            out@ + border_part(g, f, mjc, j as int) == lo + border_part(g, f, mjc, 0),
        decreases nc - j,
    {
        let ghost prev = out@;
        out.push(f);
        push_repeat(&mut out, f, widths[j]);
        out.push(f);
        if j + 1 < nc {
            if inner {
                out.push(mjc);
            } else {
                out.push(f);
            }
        }
        proof {
            let seg = repeat_char(f, (col_width(g, j as int) + 2) as nat);
            let mid = if j + 1 < g.nc {
                seq![
                    if glyphs_spec(g.preset).inner_v {
                        mjc
                    } else {
                        f
                    },
                ]
            } else {
                Seq::<char>::empty()
            };
            assert(seg =~= seq![f] + repeat_char(f, widths@[j as int] as nat) + seq![f]);
            assert(out@ =~= prev + seg + mid);
            assert(border_part(g, f, mjc, j as int) == seg + mid + border_part(g, f, mjc, j + 1));
            assert(out@ + border_part(g, f, mjc, j + 1) =~= prev + border_part(g, f, mjc, j as int));
        }
        j += 1;
    }
    proof {
        assert(border_part(g, f, mjc, nc as int) == Seq::<char>::empty());
        assert(out@ =~= lo + border_part(g, f, mjc, 0));
    }
    if outer {
        out.push(r);
    }
    proof {
        assert(out@ =~= border_line_of(g, l, f, mjc, r));
    }
    out
}

#[verifier::rlimit(80)]
fn make_row_line(
    chs: &Vec<Vec<Vec<char>>>,
    widths: &Vec<usize>,
    nc: usize,
    k: usize,
    vert: char,
    outer: bool,
    inner: bool,
    Ghost(g): Ghost<Layout>,
    Ghost(src): Ghost<Seq<Seq<char>>>,
) -> (out: Vec<char>)
    requires
        nc as nat == g.nc,
        1 <= nc,
        widths@.len() == nc,
        forall|j: int| 0 <= j < nc ==> (#[trigger] widths@[j]) as nat == col_width(g, j),
        chs@.len() == nc,
        forall|j: int| 0 <= j < nc ==> (#[trigger] chs@[j]).deep_view() == chunks_at(g, src, j),
        outer == glyphs_spec(g.preset).outer_v,
        inner == glyphs_spec(g.preset).inner_v,
        vert == glyphs_spec(g.preset).vert,
    ensures
        out@ == row_line(g, src, k as int),
{
    let mut out: Vec<char> = Vec::new();
    if outer {
        out.push(vert);
    }
    proof {
        assert(out@ + cells_part(g, src, k as int, 0) =~= opt_outer(g) + cells_part(
            g,
            src,
            k as int,
            0,
        ));
    }
    let mut j: usize = 0;
    while j < nc
        invariant
            j <= nc,
            nc as nat == g.nc,
            widths@.len() == nc,
            forall|t: int| 0 <= t < nc ==> (#[trigger] widths@[t]) as nat == col_width(g, t),
            chs@.len() == nc,
            forall|t: int|
                0 <= t < nc ==> (#[trigger] chs@[t]).deep_view() == chunks_at(g, src, t),
            inner == glyphs_spec(g.preset).inner_v,
            vert == glyphs_spec(g.preset).vert,
            out@ + cells_part(g, src, k as int, j as int) == opt_outer(g) + cells_part(
                g,
                src,
                k as int,
                0,
            ),
        decreases nc - j,
    {
        let ghost prev = out@;
        let ghost cs = chunks_at(g, src, j as int);
        let ghost c: Seq<char> = if 0 <= k < cs.len() {
            cs[k as int]
        } else {
            Seq::empty()
        };
        out.push(' ');
        let cell = &chs[j];
        if k < cell.len() {
            proof {
                assert(cell@[k as int]@ == cell.deep_view()[k as int]);
                assert(cell.deep_view()[k as int] == cs[k as int]);
            }
            extend_chars(&mut out, &cell[k]);
            let cl = cell[k].len();
            if cl < widths[j] {
                push_repeat(&mut out, ' ', widths[j] - cl);
            }
        } else {
            push_repeat(&mut out, ' ', widths[j]);
        }
        proof {
            assert(cs.len() == cell.deep_view().len());
            assert(out@ =~= prev + seq![' '] + pad_to(c, col_width(g, j as int)));
        }
        out.push(' ');
        if inner && j + 1 < nc {
            out.push(vert);
        }
        proof {
            let sep = if glyphs_spec(g.preset).inner_v && j + 1 < g.nc {
                seq![glyphs_spec(g.preset).vert]
            } else {
                Seq::<char>::empty()
            };
            assert(out@ =~= prev + (seq![' '] + chunk_line(g, src, j as int, k as int) + seq![' ']
                + sep));
            assert(cells_part(g, src, k as int, j as int) == seq![' '] + chunk_line(
                g,
                src,
                j as int,
                k as int,
            ) + seq![' '] + sep + cells_part(g, src, k as int, j + 1));
            assert(out@ + cells_part(g, src, k as int, j + 1) =~= prev + cells_part(
                g,
                src,
                k as int,
                j as int,
            ));
        }
        j += 1;
    }
    proof {
        assert(cells_part(g, src, k as int, nc as int) == Seq::<char>::empty());
        assert(out@ =~= opt_outer(g) + cells_part(g, src, k as int, 0));
    }
    if outer {
        out.push(vert);
    }
    proof {
        assert(out@ =~= row_line(g, src, k as int));
    }
    out
}

fn push_row_block(
    lines: &mut Vec<Vec<char>>,
    row: &Vec<Vec<char>>,
    widths: &Vec<usize>,
    nc: usize,
    vert: char,
    outer: bool,
    inner: bool,
    Ghost(g): Ghost<Layout>,
    Ghost(src): Ghost<Seq<Seq<char>>>,
)
    requires
        nc as nat == g.nc,
        1 <= nc,
        widths@.len() == nc,
        forall|j: int|
            0 <= j < nc ==> (#[trigger] widths@[j]) as nat == col_width(g, j) && widths@[j] >= 1,
        forall|j: int| 0 <= j < nc ==> src_cell(src, j) == src_cell(row.deep_view(), j),
        outer == glyphs_spec(g.preset).outer_v,
        inner == glyphs_spec(g.preset).inner_v,
        vert == glyphs_spec(g.preset).vert,
    ensures
        final(lines).deep_view() == old(lines).deep_view() + row_block(g, src),
{
    let mut chs: Vec<Vec<Vec<char>>> = Vec::new();
    let mut j: usize = 0;
    while j < nc
        invariant
            j <= nc,
            nc as nat == g.nc,
            widths@.len() == nc,
            forall|t: int|
                0 <= t < nc ==> (#[trigger] widths@[t]) as nat == col_width(g, t) && widths@[t]
                    >= 1,
            forall|t: int| 0 <= t < nc ==> src_cell(src, t) == src_cell(row.deep_view(), t),
            chs@.len() == j,
            forall|t: int|
                0 <= t < j ==> (#[trigger] chs@[t]).deep_view() == chunks_at(g, src, t),
        decreases nc - j,
    {
        let w = widths[j];
        let ch: Vec<Vec<char>>;
        if j < row.len() {
            proof {
                assert(src_cell(row.deep_view(), j as int) == row.deep_view()[j as int]);
                assert(row.deep_view()[j as int] =~= row@[j as int]@);
            }
            ch = chunks_of_cell(&row[j], w);
        } else {
            let e: Vec<char> = Vec::new();
            proof {
                assert(src_cell(row.deep_view(), j as int) =~= Seq::<char>::empty());
            }
            ch = chunks_of_cell(&e, w);
        }
        proof {
            assert(ch.deep_view() == chunks_at(g, src, j as int));
        }
        chs.push(ch);
        j += 1;
    }
    let mut h: usize = 1;
    let mut t: usize = 0;
    proof {
        crate::layout::lemma_row_h_pos(g, src, 0);
        assert(max_nat(h as nat, row_h_from(g, src, 0)) == row_h(g, src));
    }
    while t < nc
        invariant
            t <= nc,
            nc as nat == g.nc,
            h >= 1,
            chs@.len() == nc,
            forall|q: int|
                0 <= q < nc ==> (#[trigger] chs@[q]).deep_view() == chunks_at(g, src, q),
            max_nat(h as nat, row_h_from(g, src, t as int)) == row_h(g, src),
        decreases nc - t,
    {
        proof {
            assert(chs@[t as int].deep_view().len() == chs@[t as int]@.len());
            assert(row_h_from(g, src, t as int) == max_nat(
                chunks_at(g, src, t as int).len(),
                row_h_from(g, src, t + 1),
            ));
        }
        if chs[t].len() > h {
            h = chs[t].len();
        }
        t += 1;
    }
    proof {
        assert(row_h_from(g, src, nc as int) == 1);
        assert(h as nat == row_h(g, src));
    }
    let mut k: usize = 0;
    while k < h
        invariant
            k <= h,
            nc as nat == g.nc,
            1 <= nc,
            h as nat == row_h(g, src),
            widths@.len() == nc,
            forall|q: int|
                0 <= q < nc ==> (#[trigger] widths@[q]) as nat == col_width(g, q),
            chs@.len() == nc,
            forall|q: int|
                0 <= q < nc ==> (#[trigger] chs@[q]).deep_view() == chunks_at(g, src, q),
            outer == glyphs_spec(g.preset).outer_v,
            inner == glyphs_spec(g.preset).inner_v,
            vert == glyphs_spec(g.preset).vert,
            lines.deep_view() == old(lines).deep_view() + row_block(g, src).take(k as int),
        decreases h - k,
    {
        let line = make_row_line(&chs, widths, nc, k, vert, outer, inner, Ghost(g), Ghost(src));
        let ghost prev = lines.deep_view();
        lines.push(line);
        proof {
            assert(lines.deep_view() =~~= prev.push(row_line(g, src, k as int)));
            assert(row_block(g, src)[k as int] == row_line(g, src, k as int));
            assert(row_block(g, src).take(k + 1 as int) =~~= row_block(g, src).take(
                k as int,
            ).push(row_block(g, src)[k as int]));
            assert(lines.deep_view() =~~= old(lines).deep_view() + row_block(g, src).take(
                k + 1 as int,
            ));
        }
        k += 1;
    }
    proof {
        assert(row_block(g, src).take(h as int) =~~= row_block(g, src));
    }
}

impl TableWrapper {
    /// Creates an empty table with no width constraint and the default
    /// full-Unicode preset.
    pub fn new() -> (t: TableWrapper)
        ensures
            t@.header == Seq::<Seq<char>>::empty(),
            t@.rows == Seq::<Seq<Seq<char>>>::empty(),
            t@.width is None,
            t@.preset is Modern,
    {
        let t = TableWrapper {
            header: Vec::new(),
            rows: Vec::new(),
            width: None,
            preset: Preset::Modern,
        };
        proof {
            assert(t@.header =~~= Seq::<Seq<char>>::empty());
            assert(t@.rows =~~= Seq::<Seq<Seq<char>>>::empty());
        }
        t
    }

    /// Replaces the header row. Cell content is unconstrained and may
    /// itself contain escape sequences.
    pub fn set_header(&mut self, headers: Vec<String>)
        ensures
            final(self)@.header == headers.deep_view(),
            final(self)@.rows == old(self)@.rows,
            final(self)@.width == old(self)@.width,
            final(self)@.preset == old(self)@.preset,
    {
        self.header = strings_to_cells(headers);
    }

    /// Appends one data row at the end. The row may hold more or fewer
    /// cells than the header; missing cells render as empty.
    pub fn add_row(&mut self, cells: Vec<String>)
        ensures
            final(self)@.header == old(self)@.header,
            final(self)@.rows == old(self)@.rows.push(cells.deep_view()),
            final(self)@.width == old(self)@.width,
            final(self)@.preset == old(self)@.preset,
    {
        let row = strings_to_cells(cells);
        let ghost prev = self.rows.deep_view();
        let ghost rv = row.deep_view();
        self.rows.push(row);
        proof {
            assert(self.rows.deep_view() =~~= prev.push(rv));
        }
    }

    /// Sets the target total rendering width in character columns; the
    /// width-aware (dynamic) distribution then wraps cell content so the
    /// configured width is respected.
    pub fn set_width(&mut self, width: u16)
        ensures
            final(self)@.header == old(self)@.header,
            final(self)@.rows == old(self)@.rows,
            final(self)@.width == Some(width),
            final(self)@.preset == old(self)@.preset,
    {
        self.width = Some(width);
    }

    /// Selects a border preset by name; unrecognized names fall back to
    /// the default preset and are never an error.
    pub fn set_style(&mut self, style: &str)
        ensures
            final(self)@.header == old(self)@.header,
            final(self)@.rows == old(self)@.rows,
            final(self)@.width == old(self)@.width,
            final(self)@.preset == parse_style(style@),
    {
        self.preset = parse_style_exec(style);
    }

    fn num_cols(&self) -> (nc: usize)
        ensures
            nc as nat == ncols_of(self@),
    {
        let mut nc = self.header.len();
        proof {
            assert(self@.header.len() == self.header@.len());
            assert(self@.rows.take(0) =~~= Seq::<Seq<Seq<char>>>::empty());
        }
        let mut i: usize = 0;
        while i < self.rows.len()
            invariant
                i <= self.rows.len(),
                nc as nat == max_nat(self@.header.len(), rows_max_len(self@.rows.take(i as int))),
            decreases self.rows.len() - i,
        {
            proof {
                assert(self@.rows.take(i + 1 as int).drop_last() =~~= self@.rows.take(i as int));
                assert(self@.rows.take(i + 1 as int).last() == self@.rows[i as int]);
                assert(self@.rows[i as int].len() == self.rows@[i as int].deep_view().len());
            }
            let rl = self.rows[i].len();
            if rl > nc {
                nc = rl;
            }
            i += 1;
        }
        proof {
            assert(self@.rows.take(self@.rows.len() as int) =~~= self@.rows);
        }
        nc
    }

    /// Natural width of column `j`, at least one.
    fn col_nat_exec(&self, j: usize, nc: usize) -> (w: usize)
        requires
            nc as nat == layout_of(self@).nc,
            j < nc,
        ensures
            w as nat == col_nat(layout_of(self@), j as int),
            w >= 1,
    {
        let ghost g = layout_of(self@);
        let mut w: usize = 1;
        if self.header.len() > 0 {
            if j < self.header.len() {
                proof {
                    assert(src_cell(g.header, j as int) == self@.header[j as int]);
                    assert(self@.header[j as int] == self.header@[j as int].deep_view());
                    assert(self.header@[j as int].deep_view() =~= self.header@[j as int]@);
                }
                let hw = cell_width(&self.header[j]);
                if hw > w {
                    w = hw;
                }
            } else {
                proof {
                    assert(src_cell(g.header, j as int) =~= Seq::<char>::empty());
                    crate::layout::lemma_cell_nat_w_empty();
                }
            }
        }
        proof {
            assert(max_nat(w as nat, col_data_w(g, j as int, 0)) == col_nat(g, j as int));
        }
        let mut i: usize = 0;
        while i < self.rows.len()
            invariant
                i <= self.rows.len(),
                j < nc,
                nc as nat == g.nc,
                g == layout_of(self@),
                w >= 1,
                max_nat(w as nat, col_data_w(g, j as int, i as int)) == col_nat(g, j as int),
            decreases self.rows.len() - i,
        {
            proof {
                assert(g.cells[i as int] == Seq::new(
                    g.nc,
                    |t: int|
                        if 0 <= t < self@.rows[i as int].len() {
                            self@.rows[i as int][t]
                        } else {
                            Seq::empty()
                        },
                ));
                assert(self@.rows[i as int] == self.rows@[i as int].deep_view());
            }
            let row = &self.rows[i];
            if j < row.len() {
                proof {
                    assert(src_cell(g.cells[i as int], j as int) == self@.rows[i as int][j as int]);
                    assert(self@.rows[i as int][j as int] =~= row@[j as int]@);
                }
                let cw = cell_width(&row[j]);
                if cw > w {
                    w = cw;
                }
            } else {
                proof {
                    assert(src_cell(g.cells[i as int], j as int) =~= Seq::<char>::empty());
                    crate::layout::lemma_cell_nat_w_empty();
                }
            }
            i += 1;
        }
        w
    }

    /// The rendered width of every column.
    fn col_widths_exec(&self, nc: usize) -> (ws: Vec<usize>)
        requires
            nc as nat == layout_of(self@).nc,
            1 <= nc,
        ensures
            ws@.len() == nc,
            forall|j: int|
                0 <= j < nc ==> (#[trigger] ws@[j]) as nat == col_width(layout_of(self@), j),
            forall|j: int| 0 <= j < nc ==> #[trigger] ws@[j] >= 1,
    {
        let ghost g = layout_of(self@);
        let mut base: Vec<usize> = Vec::new();
        let mut j: usize = 0;
        while j < nc
            invariant
                j <= nc,
                nc as nat == g.nc,
                g == layout_of(self@),
                base@.len() == j,
                forall|t: int|
                    0 <= t < j ==> (#[trigger] base@[t]) as nat == col_nat(g, t) && base@[t] >= 1,
            decreases nc - j,
        {
            let w = self.col_nat_exec(j, nc);
            base.push(w);
            j += 1;
        }
        match self.width {
            None => {
                proof {
                    assert(forall|t: int|
                        0 <= t < nc ==> col_width(g, t) == col_nat(g, t));
                }
                base
            },
            Some(wd) => {
                if nc > 32767 {
                    let mut ones: Vec<usize> = Vec::new();
                    let mut t: usize = 0;
                    while t < nc
                        invariant
                            t <= nc,
                            ones@.len() == t,
                            forall|q: int| 0 <= q < t ==> #[trigger] ones@[q] == 1,
                        decreases nc - t,
                    {
                        ones.push(1);
                        t += 1;
                    }
                    proof {
                        assert(overhead(g) >= 2 * (g.nc as int));
                        assert((wd as int) < overhead(g) + g.nc);
                    }
                    ones
                } else {
                    let gl = glyphs_of(self.preset);
                    let mut ov: usize = 2 * nc;
                    if gl.outer_v {
                        ov = ov + 2;
                    }
                    if gl.inner_v {
                        ov = ov + (nc - 1);
                    }
                    proof {
                        assert(g.preset == self.preset);
                        assert(ov as int == overhead(g));
                    }
                    let wd_us = wd as usize;
                    if wd_us < ov + nc {
                        let mut ones: Vec<usize> = Vec::new();
                        let mut t: usize = 0;
                        while t < nc
                            invariant
                                t <= nc,
                                ones@.len() == t,
                                forall|q: int| 0 <= q < t ==> #[trigger] ones@[q] == 1,
                            decreases nc - t,
                        {
                            ones.push(1);
                            t += 1;
                        }
                        ones
                    } else {
                        let av = wd_us - ov;
                        proof {
                            assert(av as nat == (wd as int - overhead(g)) as nat);
                            assert(av <= 65535);
                            assert(av >= nc);
                        }
                        let mut cap: Vec<usize> = Vec::new();
                        let mut s: usize = 0;
                        let mut t: usize = 0;
                        proof {
                            assert(sum_capped(g, nc as int, av as nat) == 0);
                        }
                        while t < nc
                            invariant
                                t <= nc,
                                nc <= 32767,
                                nc <= av <= 65535,
                                nc as nat == g.nc,
                                g == layout_of(self@),
                                base@.len() == nc,
                                forall|q: int|
                                    0 <= q < nc ==> (#[trigger] base@[q]) as nat == col_nat(g, q)
                                        && base@[q] >= 1,
                                cap@.len() == t,
                                forall|q: int|
                                    0 <= q < t ==> (#[trigger] cap@[q]) as nat == capped_w(
                                        g,
                                        q,
                                        av as nat,
                                    ) && 1 <= cap@[q] <= av,
                                s <= 65535 * t,
                                s as nat == sum_capped(g, 0, av as nat) - sum_capped(
                                    g,
                                    t as int,
                                    av as nat,
                                ),
                            decreases nc - t,
                        {
                            let cj = if base[t] <= av {
                                base[t]
                            } else {
                                av
                            };
                            proof {
                                assert(cj as nat == capped_w(g, t as int, av as nat));
                                assert(sum_capped(g, t as int, av as nat) == capped_w(
                                    g,
                                    t as int,
                                    av as nat,
                                ) + sum_capped(g, t + 1, av as nat));
                            }
                            s = s + cj;
                            cap.push(cj);
                            t += 1;
                        }
                        proof {
                            assert(s as nat == sum_capped(g, 0, av as nat));
                        }
                        if s <= av {
                            cap
                        } else {
                            let mut ws: Vec<usize> = Vec::new();
                            let mut q: usize = 0;
                            while q < nc
                                invariant
                                    q <= nc,
                                    1 <= nc <= av <= 65535,
                                    1 <= s,
                                    s as nat == sum_capped(g, 0, av as nat),
                                    s > av,
                                    nc as nat == g.nc,
                                    g == layout_of(self@),
                                    g.width == Some(wd),
                                    (wd as int) >= overhead(g) + g.nc,
                                    av as nat == (wd as int - overhead(g)) as nat,
                                    cap@.len() == nc,
                                    forall|p: int|
                                        0 <= p < nc ==> (#[trigger] cap@[p]) as nat == capped_w(
                                            g,
                                            p,
                                            av as nat,
                                        ) && 1 <= cap@[p] <= av,
                                    ws@.len() == q,
                                    forall|p: int|
                                        0 <= p < q ==> (#[trigger] ws@[p]) as nat == col_width(
                                            g,
                                            p,
                                        ) && ws@[p] >= 1,
                                decreases nc - q,
                            {
                                proof {
                                    assert(av * cap@[q as int] <= 65535 * 65535) by (nonlinear_arith)
                                        requires
                                            av <= 65535,
                                            cap@[q as int] <= 65535,
                                            0 <= av,
                                            0 <= cap@[q as int],
                                    ;
                                }
                                let prod: usize = av * cap[q];
                                let quot = prod / s;
                                let wq = if quot < 1 {
                                    1
                                } else {
                                    quot
                                };
                                ws.push(wq);
                                q += 1;
                            }
                            ws
                        }
                    }
                }
            },
        }
    }

    /// Renders the table as its sequence of lines.
    fn render_lines(&self) -> (lines: Vec<Vec<char>>)
        ensures
            lines.deep_view() == all_lines(layout_of(self@)),
    {
        let ghost g = layout_of(self@);
        let nc = self.num_cols();
        let mut lines: Vec<Vec<char>> = Vec::new();
        if nc == 0 {
            proof {
                assert(lines.deep_view() =~~= all_lines(g));
            }
            return lines;
        }
        let widths = self.col_widths_exec(nc);
        let gl = glyphs_of(self.preset);
        proof {
            assert(gl == glyphs_spec(g.preset));
        }
        let ghost topopt: Seq<Seq<char>> = if gl.top {
            seq![top_border(g)]
        } else {
            Seq::empty()
        };
        if gl.top {
            let b = make_border(
                &widths,
                nc,
                gl.tl,
                gl.horiz,
                gl.tm,
                gl.tr,
                gl.outer_v,
                gl.inner_v,
                Ghost(g),
            );
            let ghost prev = lines.deep_view();
            lines.push(b);
            proof {
                assert(lines.deep_view() =~~= prev.push(top_border(g)));
            }
        }
        proof {
            assert(lines.deep_view() =~~= topopt);
        }
        let ghost hpart: Seq<Seq<char>> = if g.has_header {
            row_block(g, g.header) + (if gl.header_sep {
                seq![mid_border(g)]
            } else {
                Seq::<Seq<char>>::empty()
            })
        } else {
            Seq::empty()
        };
        if self.header.len() > 0 {
            proof {
                assert(g.has_header);
                assert forall|j: int| 0 <= j < nc implies src_cell(g.header, j) == src_cell(
                    self.header.deep_view(),
                    j,
                ) by {
                    assert(g.header[j] == src_cell(self.header.deep_view(), j));
                }
            }
            push_row_block(
                &mut lines,
                &self.header,
                &widths,
                nc,
                gl.vert,
                gl.outer_v,
                gl.inner_v,
                Ghost(g),
                Ghost(g.header),
            );
            if gl.header_sep {
                let b = make_border(
                    &widths,
                    nc,
                    gl.ml,
                    gl.horiz,
                    gl.mm,
                    gl.mr,
                    gl.outer_v,
                    gl.inner_v,
                    Ghost(g),
                );
                let ghost prev = lines.deep_view();
                lines.push(b);
                proof {
                    assert(lines.deep_view() =~~= prev.push(mid_border(g)));
                }
            }
        } else {
            proof {
                assert(!g.has_header);
            }
        }
        proof {
            assert(lines.deep_view() =~~= topopt + hpart);
        }
        let ghost pre = topopt + hpart;
        let mut i: usize = 0;
        proof {
            assert(g.cells.len() == self@.rows.len());
        }
        while i < self.rows.len()
            invariant
                i <= self.rows.len(),
                nc as nat == g.nc,
                1 <= nc,
                g == layout_of(self@),
                g.cells.len() == self.rows@.len(),
                widths@.len() == nc,
                forall|q: int|
                    0 <= q < nc ==> (#[trigger] widths@[q]) as nat == col_width(g, q)
                        && widths@[q] >= 1,
                gl == glyphs_spec(g.preset),
                lines.deep_view() + body_lines(g, i as int) == pre + body_lines(g, 0),
            decreases self.rows.len() - i,
        {
            let ghost before = lines.deep_view();
            let ghost sep: Seq<Seq<char>> = if i > 0 && gl.row_sep {
                seq![mid_border(g)]
            } else {
                Seq::empty()
            };
            if i > 0 && gl.row_sep {
                let b = make_border(
                    &widths,
                    nc,
                    gl.ml,
                    gl.horiz,
                    gl.mm,
                    gl.mr,
                    gl.outer_v,
                    gl.inner_v,
                    Ghost(g),
                );
                let ghost prev = lines.deep_view();
                lines.push(b);
                proof {
                    assert(lines.deep_view() =~~= prev.push(mid_border(g)));
                }
            }
            proof {
                assert(lines.deep_view() =~~= before + sep);
                assert(row_cells(g, i as int) == g.cells[i as int]);
                assert(self@.rows[i as int] == self.rows@[i as int].deep_view());
                assert forall|j: int| 0 <= j < nc implies src_cell(row_cells(g, i as int), j)
                    == src_cell(self.rows@[i as int].deep_view(), j) by {
                    assert(g.cells[i as int] == Seq::new(
                        g.nc,
                        |t: int|
                            if 0 <= t < self@.rows[i as int].len() {
                                self@.rows[i as int][t]
                            } else {
                                Seq::empty()
                            },
                    ));
                }
            }
            push_row_block(
                &mut lines,
                &self.rows[i],
                &widths,
                nc,
                gl.vert,
                gl.outer_v,
                gl.inner_v,
                Ghost(g),
                Ghost(row_cells(g, i as int)),
            );
            proof {
                assert(body_lines(g, i as int) == sep + row_block(g, row_cells(g, i as int))
                    + body_lines(g, i + 1));
                assert(lines.deep_view() =~~= before + sep + row_block(g, row_cells(g, i as int)));
                assert(lines.deep_view() + body_lines(g, i + 1) =~~= before + body_lines(
                    g,
                    i as int,
                ));
            }
            i += 1;
        }
        proof {
            assert(body_lines(g, self.rows@.len() as int) == Seq::<Seq<char>>::empty());
            assert(lines.deep_view() =~~= pre + body_lines(g, 0));
        }
        if gl.bottom {
            let b = make_border(
                &widths,
                nc,
                gl.bl,
                gl.horiz,
                gl.bm,
                gl.br,
                gl.outer_v,
                gl.inner_v,
                Ghost(g),
            );
            let ghost prev = lines.deep_view();
            lines.push(b);
            proof {
                assert(lines.deep_view() =~~= prev.push(bot_border(g)));
            }
        }
        proof {
            let botopt: Seq<Seq<char>> = if gl.bottom {
                seq![bot_border(g)]
            } else {
                Seq::empty()
            };
            assert(lines.deep_view() =~~= topopt + hpart + body_lines(g, 0) + botopt);
            assert(all_lines(g) == topopt + hpart + body_lines(g, 0) + botopt);
        }
        lines
    }

    /// Renders the complete table as one multi-line string. Deterministic
    /// in the current state; rendering never mutates the table.
    pub fn to_string(&self) -> (r: String)
        ensures
            r@ == spec_render(self@),
    {
        let lines = self.render_lines();
        let joined = join_exec(&lines);
        chars_to_string(&joined)
    }

    /// The number of newline-delimited lines in the rendered output:
    /// always equal to the line count of [`Self::to_string`]'s result.
    pub fn get_height(&self) -> (h: usize)
        ensures
            h as nat == spec_height(self@),
            h as nat == line_count(spec_render(self@)),
    {
        let lines = self.render_lines();
        proof {
            crate::layout::lemma_all_lines_wellformed(layout_of(self@));
            lemma_join_line_count(all_lines(layout_of(self@)));
        }
        lines.len()
    }

    /// Renders the table and converts the result to HTML markup.
    pub fn to_html(&self) -> (r: String)
        ensures
            r@ == conv_spec(spec_render(self@)),
    {
        let lines = self.render_lines();
        let joined = join_exec(&lines);
        let out = convert_chars(&joined);
        chars_to_string(&out)
    }
}

impl Default for TableWrapper {
    /// The default table is the empty table.
    fn default() -> (t: Self)
        ensures
            t@.header == Seq::<Seq<char>>::empty(),
            t@.rows == Seq::<Seq<Seq<char>>>::empty(),
            t@.width is None,
            t@.preset is Modern,
    {
        TableWrapper::new()
    }
}

} // verus!
