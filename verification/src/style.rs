//! Border presets: a closed enumeration of named glyph sets, each
//! selecting the border characters and which border lines are drawn.
//! Unknown preset names resolve to the default full-Unicode preset.

use crate::text::str_to_chars;
use vstd::prelude::*;

verus! {

/// A named border/glyph template. `Rounded` is a condensed full-Unicode
/// variant (no separator between data rows), not a true rounded-corner
/// set; `NoBorders` draws nothing around the cells.
#[derive(Clone, Copy)]
pub enum Preset {
    Ascii,
    Modern,
    Rounded,
    BordersOnly,
    HorizontalOnly,
    NoBorders,
}

/// The glyph set of one preset: which border lines exist, and the
/// characters used to draw them.
pub struct Glyphs {
    /// Draw a border line above the first row.
    pub top: bool,
    /// Draw a border line below the last row.
    pub bottom: bool,
    /// Draw a separator line between the header and the first data row.
    pub header_sep: bool,
    /// Draw a separator line between consecutive data rows.
    pub row_sep: bool,
    /// Draw vertical border characters at the left and right edges.
    pub outer_v: bool,
    /// Draw vertical border characters between columns.
    pub inner_v: bool,
    /// Horizontal line character.
    pub horiz: char,
    /// Vertical line character.
    pub vert: char,
    /// Top border: left corner, column junction, right corner.
    pub tl: char,
    pub tm: char,
    pub tr: char,
    /// Separator lines: left edge, column junction, right edge.
    pub ml: char,
    pub mm: char,
    pub mr: char,
    /// Bottom border: left corner, column junction, right corner.
    pub bl: char,
    pub bm: char,
    pub br: char,
}

/// The glyph set selected by each preset.
pub open spec fn glyphs_spec(p: Preset) -> Glyphs {
    match p {
        Preset::Ascii => Glyphs {
            top: true,
            bottom: true,
            header_sep: true,
            row_sep: true,
            outer_v: true,
            inner_v: true,
            horiz: '-',
            vert: '|',
            tl: '+',
            tm: '+',
            tr: '+',
            ml: '+',
            mm: '+',
            mr: '+',
            bl: '+',
            bm: '+',
            br: '+',
        },
        Preset::Modern => Glyphs {
            top: true,
            bottom: true,
            header_sep: true,
            row_sep: true,
            outer_v: true,
            inner_v: true,
            horiz: '\u{2500}',
            vert: '\u{2502}',
            tl: '\u{250c}',
            tm: '\u{252c}',
            tr: '\u{2510}',
            ml: '\u{251c}',
            mm: '\u{253c}',
            mr: '\u{2524}',
            bl: '\u{2514}',
            bm: '\u{2534}',
            br: '\u{2518}',
        },
        Preset::Rounded => Glyphs {
            top: true,
            bottom: true,
            header_sep: true,
            row_sep: false,
            outer_v: true,
            inner_v: true,
            horiz: '\u{2500}',
            vert: '\u{2502}',
            tl: '\u{250c}',
            tm: '\u{252c}',
            tr: '\u{2510}',
            ml: '\u{251c}',
            mm: '\u{253c}',
            mr: '\u{2524}',
            bl: '\u{2514}',
            bm: '\u{2534}',
            br: '\u{2518}',
        },
        Preset::BordersOnly => Glyphs {
            top: true,
            bottom: true,
            header_sep: true,
            row_sep: false,
            outer_v: true,
            inner_v: false,
            horiz: '\u{2500}',
            vert: '\u{2502}',
            tl: '\u{250c}',
            tm: '\u{2500}',
            tr: '\u{2510}',
            ml: '\u{251c}',
            mm: '\u{2500}',
            mr: '\u{2524}',
            bl: '\u{2514}',
            bm: '\u{2500}',
            br: '\u{2518}',
        },
        Preset::HorizontalOnly => Glyphs {
            top: true,
            bottom: true,
            header_sep: true,
            row_sep: false,
            outer_v: false,
            inner_v: false,
            horiz: '\u{2500}',
            vert: ' ',
            tl: '\u{2500}',
            tm: '\u{2500}',
            tr: '\u{2500}',
            ml: '\u{2500}',
            mm: '\u{2500}',
            mr: '\u{2500}',
            bl: '\u{2500}',
            bm: '\u{2500}',
            br: '\u{2500}',
        },
        Preset::NoBorders => Glyphs {
            top: false,
            bottom: false,
            header_sep: false,
            row_sep: false,
            outer_v: false,
            inner_v: false,
            horiz: ' ',
            vert: ' ',
            tl: ' ',
            tm: ' ',
            tr: ' ',
            ml: ' ',
            mm: ' ',
            mr: ' ',
            bl: ' ',
            bm: ' ',
            br: ' ',
        },
    }
}

/// Executable twin of [`glyphs_spec`].
pub fn glyphs_of(p: Preset) -> (g: Glyphs)
    ensures
        g == glyphs_spec(p),
{
    match p {
        Preset::Ascii => Glyphs {
            top: true,
            bottom: true,
            header_sep: true,
            row_sep: true,
            outer_v: true,
            inner_v: true,
            horiz: '-',
            vert: '|',
            tl: '+',
            tm: '+',
            tr: '+',
            ml: '+',
            mm: '+',
            mr: '+',
            bl: '+',
            bm: '+',
            br: '+',
        },
        Preset::Modern => Glyphs {
            top: true,
            bottom: true,
            header_sep: true,
            row_sep: true,
            outer_v: true,
            inner_v: true,
            horiz: '\u{2500}',
            vert: '\u{2502}',
            tl: '\u{250c}',
            tm: '\u{252c}',
            tr: '\u{2510}',
            ml: '\u{251c}',
            mm: '\u{253c}',
            mr: '\u{2524}',
            bl: '\u{2514}',
            bm: '\u{2534}',
            br: '\u{2518}',
        },
        Preset::Rounded => Glyphs {
            top: true,
            bottom: true,
            header_sep: true,
            row_sep: false,
            outer_v: true,
            inner_v: true,
            horiz: '\u{2500}',
            vert: '\u{2502}',
            tl: '\u{250c}',
            tm: '\u{252c}',
            tr: '\u{2510}',
            ml: '\u{251c}',
            mm: '\u{253c}',
            mr: '\u{2524}',
            bl: '\u{2514}',
            bm: '\u{2534}',
            br: '\u{2518}',
        },
        Preset::BordersOnly => Glyphs {
            top: true,
            bottom: true,
            header_sep: true,
            row_sep: false,
            outer_v: true,
            inner_v: false,
            horiz: '\u{2500}',
            vert: '\u{2502}',
            tl: '\u{250c}',
            tm: '\u{2500}',
            tr: '\u{2510}',
            ml: '\u{251c}',
            mm: '\u{2500}',
            mr: '\u{2524}',
            bl: '\u{2514}',
            bm: '\u{2500}',
            br: '\u{2518}',
        },
        Preset::HorizontalOnly => Glyphs {
            top: true,
            bottom: true,
            header_sep: true,
            row_sep: false,
            outer_v: false,
            inner_v: false,
            horiz: '\u{2500}',
            vert: ' ',
            tl: '\u{2500}',
            tm: '\u{2500}',
            tr: '\u{2500}',
            ml: '\u{2500}',
            mm: '\u{2500}',
            mr: '\u{2500}',
            bl: '\u{2500}',
            bm: '\u{2500}',
            br: '\u{2500}',
        },
        Preset::NoBorders => Glyphs {
            top: false,
            bottom: false,
            header_sep: false,
            row_sep: false,
            outer_v: false,
            inner_v: false,
            horiz: ' ',
            vert: ' ',
            tl: ' ',
            tm: ' ',
            tr: ' ',
            ml: ' ',
            mm: ' ',
            mr: ' ',
            bl: ' ',
            bm: ' ',
            br: ' ',
        },
    }
}

/// The preset selected by a style name; any unrecognized name resolves to
/// the default full-Unicode preset.
pub open spec fn parse_style(s: Seq<char>) -> Preset {
    if s == "ascii"@ {
        Preset::Ascii
    } else if s == "modern"@ {
        Preset::Modern
    } else if s == "rounded"@ {
        Preset::Rounded
    } else if s == "borders_only"@ {
        Preset::BordersOnly
    } else if s == "horizontal_only"@ {
        Preset::HorizontalOnly
    } else if s == "no_borders"@ {
        Preset::NoBorders
    } else {
        Preset::Modern
    }
}

fn chars_eq(a: &Vec<char>, b: &Vec<char>) -> (r: bool)
    ensures
        r == (a@ == b@),
{
    if a.len() != b.len() {
        return false;
    }
    let mut i: usize = 0;
    while i < a.len()
        invariant
            i <= a.len(),
            a@.len() == b@.len(),
            forall|t: int| 0 <= t < i ==> a@[t] == b@[t],
        decreases a.len() - i,
    {
        if a[i] != b[i] {
            return false;
        }
        i += 1;
    }
    proof {
        assert(a@ =~= b@);
    }
    true
}

fn matches_name(v: &Vec<char>, name: &str) -> (r: bool)
    ensures
        r == (v@ == name@),
{
    let w = str_to_chars(name);
    chars_eq(v, &w)
}

/// Executable twin of [`parse_style`].
pub fn parse_style_exec(s: &str) -> (p: Preset)
    ensures
        p == parse_style(s@),
{
    let v = str_to_chars(s);
    if matches_name(&v, "ascii") {
        Preset::Ascii
    } else if matches_name(&v, "modern") {
        Preset::Modern
    } else if matches_name(&v, "rounded") {
        Preset::Rounded
    } else if matches_name(&v, "borders_only") {
        Preset::BordersOnly
    } else if matches_name(&v, "horizontal_only") {
        Preset::HorizontalOnly
    } else if matches_name(&v, "no_borders") {
        Preset::NoBorders
    } else {
        Preset::Modern
    }
}

} // verus!
