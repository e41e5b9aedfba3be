//! Escape-to-markup converter: scans text for SGR (Select Graphic
//! Rendition) escape sequences and re-emits the text as HTML. Literal text
//! is copied with markup-safe escaping; recognized style/color codes open
//! and close tags; unknown codes are ignored; malformed escape runs are
//! stripped locally without disturbing the surrounding text; tags still
//! open at end of input are closed.
//!
//! The scanner is the three-state machine `literal / after-introducer /
//! in-parameters`: the introducer is ESC `[`, parameters are
//! semicolon-separated digit runs, and the terminator is `m`. Any other
//! byte inside a sequence aborts it: the offending run is dropped and the
//! aborting character is reprocessed as literal text.

use crate::text::{chars_to_string, push_str_chars, str_to_chars};
use vstd::prelude::*;

verus! {

/// An open markup tag: `<b>` or a `<span>` carrying a color style.
pub enum Tag {
    Bold,
    Span,
}

/// The closing markup for one tag.
pub open spec fn close_tag(t: Tag) -> Seq<char> {
    match t {
        Tag::Bold => "</b>"@,
        Tag::Span => "</span>"@,
    }
}

/// Closes every open tag, most recently opened first.
pub open spec fn close_all(st: Seq<Tag>) -> Seq<char>
    decreases st.len(),
{
    if st.len() == 0 {
        Seq::empty()
    } else {
        close_tag(st.last()) + close_all(st.drop_last())
    }
}

pub open spec fn is_digit(c: char) -> bool {
    48 <= c as u32 <= 57
}

/// A character allowed between the introducer and the terminator.
pub open spec fn is_param_char(c: char) -> bool {
    is_digit(c) || c == ';'
}

pub open spec fn digit_val(c: char) -> nat {
    if is_digit(c) {
        (c as u32 - 48) as nat
    } else {
        0
    }
}

/// First position at or after `k` whose character is not a parameter
/// character (or the end of `s`).
pub open spec fn params_end(s: Seq<char>, k: int) -> int
    decreases s.len() - k,
{
    if k >= s.len() {
        k
    } else if is_param_char(s[k]) {
        params_end(s, k + 1)
    } else {
        k
    }
}

pub proof fn lemma_params_end(s: Seq<char>, k: int)
    requires
        0 <= k <= s.len(),
    ensures
        k <= params_end(s, k) <= s.len(),
        forall|t: int| k <= t < params_end(s, k) ==> is_param_char(#[trigger] s[t]),
        params_end(s, k) < s.len() ==> !is_param_char(s[params_end(s, k)]),
    decreases s.len() - k,
{
    if k >= s.len() {
    } else if is_param_char(s[k]) {
        lemma_params_end(s, k + 1);
    } else {
    }
}

/// The hex color for one palette slot: the eight standard colors, then the
/// eight bright ones.
pub open spec fn palette_hex(idx: nat) -> Seq<char> {
    if idx == 0 {
        "#000000"@
    } else if idx == 1 {
        "#aa0000"@
    } else if idx == 2 {
        "#00aa00"@
    } else if idx == 3 {
        "#aa5500"@
    } else if idx == 4 {
        "#0000aa"@
    } else if idx == 5 {
        "#aa00aa"@
    } else if idx == 6 {
        "#00aaaa"@
    } else if idx == 7 {
        "#aaaaaa"@
    } else if idx == 8 {
        "#555555"@
    } else if idx == 9 {
        "#ff5555"@
    } else if idx == 10 {
        "#55ff55"@
    } else if idx == 11 {
        "#ffff55"@
    } else if idx == 12 {
        "#5555ff"@
    } else if idx == 13 {
        "#ff55ff"@
    } else if idx == 14 {
        "#55ffff"@
    } else {
        "#ffffff"@
    }
}

/// Codes that open a tag: bold, and the foreground/background colors.
pub open spec fn is_open_code(code: nat) -> bool {
    code == 1 || (30 <= code <= 37) || (90 <= code <= 97) || (40 <= code <= 47) || (100 <= code
        <= 107)
}

pub open spec fn tag_of(code: nat) -> Tag {
    if code == 1 {
        Tag::Bold
    } else {
        Tag::Span
    }
}

/// The opening markup emitted for a recognized code.
pub open spec fn open_frag(code: nat) -> Seq<char> {
    if code == 1 {
        "<b>"@
    } else if 30 <= code <= 37 {
        "<span style=\"color:"@ + palette_hex((code - 30) as nat) + "\">"@
    } else if 90 <= code <= 97 {
        "<span style=\"color:"@ + palette_hex((code - 90 + 8) as nat) + "\">"@
    } else if 40 <= code <= 47 {
        "<span style=\"background:"@ + palette_hex((code - 40) as nat) + "\">"@
    } else if 100 <= code <= 107 {
        "<span style=\"background:"@ + palette_hex((code - 100 + 8) as nat) + "\">"@
    } else {
        Seq::empty()
    }
}

/// Markup emitted on applying one code to the current open-tag stack:
/// reset closes everything, a recognized code opens a tag, anything else
/// emits nothing.
pub open spec fn step_frag(code: nat, st: Seq<Tag>) -> Seq<char> {
    if code == 0 {
        close_all(st)
    } else if is_open_code(code) {
        open_frag(code)
    } else {
        Seq::empty()
    }
}

/// The open-tag stack after applying one code.
pub open spec fn step_stack(code: nat, st: Seq<Tag>) -> Seq<Tag> {
    if code == 0 {
        Seq::empty()
    } else if is_open_code(code) {
        st.push(tag_of(code))
    } else {
        st
    }
}

/// The code value of a digit run: runs longer than three digits exceed
/// every recognized code and are classed by the sentinel 1000.
pub open spec fn code_from(cur: nat, nd: nat) -> nat {
    if nd > 3 {
        1000
    } else {
        cur
    }
}

pub open spec fn upd_cur(cur: nat, nd: nat, c: char) -> nat {
    if nd < 3 {
        cur * 10 + digit_val(c)
    } else {
        cur
    }
}

pub open spec fn upd_nd(nd: nat) -> nat {
    if nd < 4 {
        nd + 1
    } else {
        nd
    }
}

/// Markup emitted by the parameter run `s[t..b)` of one escape sequence,
/// given the digits `cur`/`nd` already read and the open-tag stack.
pub open spec fn codes_frag(s: Seq<char>, t: int, b: int, cur: nat, nd: nat, st: Seq<Tag>) -> Seq<
    char,
>
    decreases b - t,
{
    if t >= b {
        step_frag(code_from(cur, nd), st)
    } else if s[t] == ';' {
        step_frag(code_from(cur, nd), st) + codes_frag(
            s,
            t + 1,
            b,
            0,
            0,
            step_stack(code_from(cur, nd), st),
        )
    } else {
        codes_frag(s, t + 1, b, upd_cur(cur, nd, s[t]), upd_nd(nd), st)
    }
}

/// The open-tag stack left by the parameter run `s[t..b)`.
pub open spec fn codes_stack(s: Seq<char>, t: int, b: int, cur: nat, nd: nat, st: Seq<Tag>) -> Seq<
    Tag,
>
    decreases b - t,
{
    if t >= b {
        step_stack(code_from(cur, nd), st)
    } else if s[t] == ';' {
        codes_stack(s, t + 1, b, 0, 0, step_stack(code_from(cur, nd), st))
    } else {
        codes_stack(s, t + 1, b, upd_cur(cur, nd, s[t]), upd_nd(nd), st)
    }
}

/// One literal character with markup-safe escaping.
pub open spec fn esc_html(c: char) -> Seq<char> {
    if c == '<' {
        "&lt;"@
    } else if c == '>' {
        "&gt;"@
    } else if c == '&' {
        "&amp;"@
    } else {
        seq![c]
    }
}

/// The converter: output for the input suffix starting at `i`, with the
/// open-tag stack `st`. At end of input all open tags are closed.
pub open spec fn conv(s: Seq<char>, i: int, st: Seq<Tag>) -> Seq<char>
    decreases s.len() - i,
    via conv_decreases
{
    if i < 0 || i >= s.len() {
        close_all(st)
    } else if s[i] == '\u{1b}' {
        if i + 1 < s.len() && s[i + 1] == '[' {
            let pe = params_end(s, i + 2);
            if pe < s.len() && s[pe] == 'm' {
                codes_frag(s, i + 2, pe, 0, 0, st) + conv(s, pe + 1, codes_stack(s, i + 2, pe, 0, 0, st))
            } else if pe < s.len() {
                conv(s, pe, st)
            } else {
                close_all(st)
            }
        } else {
            conv(s, i + 1, st)
        }
    } else {
        esc_html(s[i]) + conv(s, i + 1, st)
    }
}

#[via_fn]
proof fn conv_decreases(s: Seq<char>, i: int, st: Seq<Tag>) {
    if 0 <= i < s.len() && s[i] == '\u{1b}' && i + 1 < s.len() && s[i + 1] == '[' {
        lemma_params_end(s, i + 2);
    }
}

/// The complete conversion of an input text.
pub open spec fn conv_spec(s: Seq<char>) -> Seq<char> {
    conv(s, 0, Seq::empty())
}

fn push_hex(out: &mut Vec<char>, idx: u32)
    requires
        idx < 16,
    ensures
        final(out)@ == old(out)@ + palette_hex(idx as nat),
{
    if idx == 0 {
        push_str_chars(out, "#000000");
    } else if idx == 1 {
        push_str_chars(out, "#aa0000");
    } else if idx == 2 {
        push_str_chars(out, "#00aa00");
    } else if idx == 3 {
        push_str_chars(out, "#aa5500");
    } else if idx == 4 {
        push_str_chars(out, "#0000aa");
    } else if idx == 5 {
        push_str_chars(out, "#aa00aa");
    } else if idx == 6 {
        push_str_chars(out, "#00aaaa");
    } else if idx == 7 {
        push_str_chars(out, "#aaaaaa");
    } else if idx == 8 {
        push_str_chars(out, "#555555");
    } else if idx == 9 {
        push_str_chars(out, "#ff5555");
    } else if idx == 10 {
        push_str_chars(out, "#55ff55");
    } else if idx == 11 {
        push_str_chars(out, "#ffff55");
    } else if idx == 12 {
        push_str_chars(out, "#5555ff");
    } else if idx == 13 {
        push_str_chars(out, "#ff55ff");
    } else if idx == 14 {
        push_str_chars(out, "#55ffff");
    } else {
        push_str_chars(out, "#ffffff");
    }
}

/// Applies one SGR code to the open-tag stack, emitting its markup.
fn apply_code(code: u32, stack: &mut Vec<Tag>, out: &mut Vec<char>)
    ensures
        final(out)@ == old(out)@ + step_frag(code as nat, old(stack)@),
        final(stack)@ == step_stack(code as nat, old(stack)@),
{
    if code == 0 {
        while stack.len() > 0
            invariant
                out@ + close_all(stack@) == old(out)@ + close_all(old(stack)@),
            decreases stack.len(),
        {
            let ghost prev = stack@;
            let t = match stack.pop() {
                Some(t) => t,
                None => Tag::Bold,
            };
            match t {
                Tag::Bold => push_str_chars(out, "</b>"),
                Tag::Span => push_str_chars(out, "</span>"),
            }
            proof {
                assert(stack@ =~= prev.drop_last());
                assert((out@ + close_all(stack@)) =~= old(out)@ + close_all(old(stack)@));
            }
        }
        proof {
            assert(out@ + close_all(stack@) =~= out@);
        }
    } else if code == 1 {
        push_str_chars(out, "<b>");
        stack.push(Tag::Bold);
    } else if 30 <= code && code <= 37 {
        push_str_chars(out, "<span style=\"color:");
        push_hex(out, code - 30);
        push_str_chars(out, "\">");
        stack.push(Tag::Span);
        proof {
            assert(out@ =~= old(out)@ + open_frag(code as nat));
        }
    } else if 90 <= code && code <= 97 {
        push_str_chars(out, "<span style=\"color:");
        push_hex(out, code - 90 + 8);
        push_str_chars(out, "\">");
        stack.push(Tag::Span);
        proof {
            assert(out@ =~= old(out)@ + open_frag(code as nat));
        }
    } else if 40 <= code && code <= 47 {
        push_str_chars(out, "<span style=\"background:");
        push_hex(out, code - 40);
        push_str_chars(out, "\">");
        stack.push(Tag::Span);
        proof {
            assert(out@ =~= old(out)@ + open_frag(code as nat));
        }
    } else if 100 <= code && code <= 107 {
        push_str_chars(out, "<span style=\"background:");
        push_hex(out, code - 100 + 8);
        push_str_chars(out, "\">");
        stack.push(Tag::Span);
        proof {
            assert(out@ =~= old(out)@ + open_frag(code as nat));
        }
    } else {
        proof {
            assert(out@ =~= old(out)@ + step_frag(code as nat, old(stack)@));
        }
    }
}

/// Runs the converter state machine over a character vector.
pub(crate) fn convert_chars(v: &Vec<char>) -> (out: Vec<char>)
    ensures
        out@ == conv_spec(v@),
{
    let mut out: Vec<char> = Vec::new();
    let mut stack: Vec<Tag> = Vec::new();
    let mut i: usize = 0;
    proof {
        assert(out@ + conv(v@, 0, stack@) =~= conv_spec(v@));
    }
    while i < v.len()
        invariant
            i <= v.len(),
            out@ + conv(v@, i as int, stack@) == conv_spec(v@),
        decreases v.len() - i,
    {
        let c = v[i];
        if c == '\u{1b}' {
            if i + 1 < v.len() && v[i + 1] == '[' {
                let mut j = i + 2;
                proof {
                    lemma_params_end(v@, i + 2);
                }
                while j < v.len() && is_param(v[j])
                    invariant
                        i + 2 <= j <= v@.len(),
                        params_end(v@, i + 2) == params_end(v@, j as int),
                    decreases v.len() - j,
                {
                    j += 1;
                }
                proof {
                    assert(params_end(v@, j as int) == j);
                    assert(params_end(v@, i + 2) == j);
                }
                if j < v.len() && v[j] == 'm' {
                    let ghost st0 = stack@;
                    let ghost out0 = out@;
                    let mut t = i + 2;
                    let mut cur: u32 = 0;
                    let mut nd: u32 = 0;
                    proof {
                        lemma_params_end(v@, i + 2);
                    }
                    while t < j
                        invariant
                            i + 2 <= t <= j <= v@.len(),
                            cur <= 999,
                            nd == 0 ==> cur == 0,
                            nd == 1 ==> cur <= 9,
                            nd == 2 ==> cur <= 99,
                            forall|q: int| i + 2 <= q < j ==> is_param_char(#[trigger] v@[q]),
                            out@ + codes_frag(v@, t as int, j as int, cur as nat, nd as nat, stack@)
                                == out0 + codes_frag(v@, i + 2, j as int, 0, 0, st0),
                            codes_stack(v@, t as int, j as int, cur as nat, nd as nat, stack@)
                                == codes_stack(v@, i + 2, j as int, 0, 0, st0),
                        decreases j - t,
                    {
                        let pc = v[t];
                        if pc == ';' {
                            let code = if nd > 3 {
                                1000
                            } else {
                                cur
                            };
                            apply_code(code, &mut stack, &mut out);
                            cur = 0;
                            nd = 0;
                            proof {
                                assert(out@ + codes_frag(
                                    v@,
                                    t + 1,
                                    j as int,
                                    0,
                                    0,
                                    stack@,
                                ) =~= out0 + codes_frag(v@, i + 2, j as int, 0, 0, st0));
                            }
                        } else {
                            proof {
                                assert(is_param_char(v@[t as int]));
                                assert(is_digit(pc));
                            }
                            if nd < 3 {
                                cur = cur * 10 + (pc as u32 - 48);
                            }
                            if nd < 4 {
                                nd = nd + 1;
                            }
                        }
                        t += 1;
                    }
                    let code = if nd > 3 {
                        1000
                    } else {
                        cur
                    };
                    apply_code(code, &mut stack, &mut out);
                    proof {
                        assert(out@ =~= out0 + codes_frag(v@, i + 2, j as int, 0, 0, st0));
                        assert(stack@ == codes_stack(v@, i + 2, j as int, 0, 0, st0));
                        assert(conv(v@, i as int, st0) == codes_frag(v@, i + 2, j as int, 0, 0, st0)
                            + conv(v@, j + 1, codes_stack(v@, i + 2, j as int, 0, 0, st0)));
                        assert(out@ + conv(v@, j + 1, stack@) =~= out0 + conv(v@, i as int, st0));
                    }
                    i = j + 1;
                } else if j < v.len() {
                    proof {
                        assert(conv(v@, i as int, stack@) == conv(v@, j as int, stack@));
                    }
                    i = j;
                } else {
                    proof {
                        assert(conv(v@, i as int, stack@) == close_all(stack@));
                        assert(conv(v@, v@.len() as int, stack@) == close_all(stack@));
                    }
                    i = v.len();
                }
            } else {
                proof {
                    assert(conv(v@, i as int, stack@) == conv(v@, i + 1, stack@));
                }
                i += 1;
            }
        } else {
            if c == '<' {
                push_str_chars(&mut out, "&lt;");
            } else if c == '>' {
                push_str_chars(&mut out, "&gt;");
            } else if c == '&' {
                push_str_chars(&mut out, "&amp;");
            } else {
                out.push(c);
            }
            proof {
                assert(conv(v@, i as int, stack@) == esc_html(v@[i as int]) + conv(
                    v@,
                    i + 1,
                    stack@,
                ));
                assert(out@ + conv(v@, i + 1, stack@) =~= conv_spec(v@));
            }
            i += 1;
        }
    }
    let ghost st_end = stack@;
    apply_code(0, &mut stack, &mut out);
    proof {
        assert(conv(v@, v@.len() as int, st_end) == close_all(st_end));
        assert(out@ =~= conv_spec(v@));
    }
    out
}

/// `s` contains no escape-introducer byte.
pub open spec fn esc_free(s: Seq<char>) -> bool {
    forall|i: int| 0 <= i < s.len() ==> s[i] != '\u{1b}'
}

/// The suffix of `s` from `i` with markup-safe escaping applied to each
/// character.
pub open spec fn escape_from(s: Seq<char>, i: int) -> Seq<char>
    decreases s.len() - i,
{
    if i < 0 || i >= s.len() {
        Seq::empty()
    } else {
        esc_html(s[i]) + escape_from(s, i + 1)
    }
}

/// `s` with markup-safe escaping applied to each character.
pub open spec fn escape_all(s: Seq<char>) -> Seq<char> {
    escape_from(s, 0)
}

proof fn lemma_conv_literal(s: Seq<char>, i: int, st: Seq<Tag>)
    requires
        esc_free(s),
    ensures
        conv(s, i, st) == escape_from(s, i) + close_all(st),
    decreases s.len() - i,
{
    if i < 0 || i >= s.len() {
        assert(escape_from(s, i) + close_all(st) =~= close_all(st));
    } else {
        lemma_conv_literal(s, i + 1, st);
        assert(s[i] != '\u{1b}');
        assert(esc_html(s[i]) + (escape_from(s, i + 1) + close_all(st)) =~= (esc_html(s[i])
            + escape_from(s, i + 1)) + close_all(st));
    }
}

/// Converter round trip on plain text: an input without the escape
/// introducer is returned unchanged except for markup-safe escaping.
pub proof fn lemma_convert_plain_text(s: Seq<char>)
    requires
        esc_free(s),
    ensures
        conv_spec(s) == escape_all(s),
{
    lemma_conv_literal(s, 0, Seq::empty());
    assert(escape_from(s, 0) + close_all(Seq::<Tag>::empty()) =~= escape_from(s, 0));
}

/// On plain text that also contains none of the markup-significant
/// characters, the converter is the identity.
pub proof fn lemma_convert_plain_unescaped(s: Seq<char>)
    requires
        esc_free(s),
        forall|i: int| 0 <= i < s.len() ==> s[i] != '<' && s[i] != '>' && s[i] != '&',
    ensures
        conv_spec(s) == s,
{
    lemma_convert_plain_text(s);
    lemma_escape_identity(s, 0);
    assert(s.skip(0) =~= s);
}

proof fn lemma_escape_identity(s: Seq<char>, i: int)
    requires
        0 <= i <= s.len(),
        forall|t: int| 0 <= t < s.len() ==> s[t] != '<' && s[t] != '>' && s[t] != '&',
    ensures
        escape_from(s, i) == s.skip(i),
    decreases s.len() - i,
{
    if i >= s.len() {
        assert(s.skip(i) =~= Seq::<char>::empty());
    } else {
        lemma_escape_identity(s, i + 1);
        assert(esc_html(s[i]) == seq![s[i]]);
        assert(seq![s[i]] + s.skip(i + 1) =~= s.skip(i));
    }
}

proof fn lemma_concat_esc_free(a: Seq<char>, b: Seq<char>)
    requires
        esc_free(a),
        esc_free(b),
    ensures
        esc_free(a + b),
{
    assert forall|i: int| 0 <= i < (a + b).len() implies (a + b)[i] != '\u{1b}' by {
        if i < a.len() {
            assert((a + b)[i] == a[i]);
        } else {
            assert((a + b)[i] == b[i - a.len()]);
        }
    }
}

proof fn lemma_close_all_esc_free(st: Seq<Tag>)
    ensures
        esc_free(close_all(st)),
    decreases st.len(),
{
    reveal_strlit("</b>");
    reveal_strlit("</span>");
    if st.len() == 0 {
    } else {
        lemma_close_all_esc_free(st.drop_last());
        lemma_concat_esc_free(close_tag(st.last()), close_all(st.drop_last()));
    }
}

proof fn lemma_palette_esc_free(idx: nat)
    ensures
        esc_free(palette_hex(idx)),
{
    reveal_strlit("#000000");
    reveal_strlit("#aa0000");
    reveal_strlit("#00aa00");
    reveal_strlit("#aa5500");
    reveal_strlit("#0000aa");
    reveal_strlit("#aa00aa");
    reveal_strlit("#00aaaa");
    reveal_strlit("#aaaaaa");
    reveal_strlit("#555555");
    reveal_strlit("#ff5555");
    reveal_strlit("#55ff55");
    reveal_strlit("#ffff55");
    reveal_strlit("#5555ff");
    reveal_strlit("#ff55ff");
    reveal_strlit("#55ffff");
    reveal_strlit("#ffffff");
}

proof fn lemma_open_frag_esc_free(code: nat)
    ensures
        esc_free(open_frag(code)),
{
    reveal_strlit("<b>");
    reveal_strlit("<span style=\"color:");
    reveal_strlit("<span style=\"background:");
    reveal_strlit("\">");
    lemma_palette_esc_free((code - 30) as nat);
    lemma_palette_esc_free((code - 90 + 8) as nat);
    lemma_palette_esc_free((code - 40) as nat);
    lemma_palette_esc_free((code - 100 + 8) as nat);
    if code == 1 {
    } else if 30 <= code <= 37 {
        lemma_concat_esc_free("<span style=\"color:"@, palette_hex((code - 30) as nat));
        lemma_concat_esc_free(
            "<span style=\"color:"@ + palette_hex((code - 30) as nat),
            "\">"@,
        );
    } else if 90 <= code <= 97 {
        lemma_concat_esc_free("<span style=\"color:"@, palette_hex((code - 90 + 8) as nat));
        lemma_concat_esc_free(
            "<span style=\"color:"@ + palette_hex((code - 90 + 8) as nat),
            "\">"@,
        );
    } else if 40 <= code <= 47 {
        lemma_concat_esc_free("<span style=\"background:"@, palette_hex((code - 40) as nat));
        lemma_concat_esc_free(
            "<span style=\"background:"@ + palette_hex((code - 40) as nat),
            "\">"@,
        );
    } else if 100 <= code <= 107 {
        lemma_concat_esc_free(
            "<span style=\"background:"@,
            palette_hex((code - 100 + 8) as nat),
        );
        lemma_concat_esc_free(
            "<span style=\"background:"@ + palette_hex((code - 100 + 8) as nat),
            "\">"@,
        );
    }
}

proof fn lemma_step_frag_esc_free(code: nat, st: Seq<Tag>)
    ensures
        esc_free(step_frag(code, st)),
{
    lemma_close_all_esc_free(st);
    lemma_open_frag_esc_free(code);
}

proof fn lemma_codes_frag_esc_free(s: Seq<char>, t: int, b: int, cur: nat, nd: nat, st: Seq<Tag>)
    ensures
        esc_free(codes_frag(s, t, b, cur, nd, st)),
    decreases b - t,
{
    if t >= b {
        lemma_step_frag_esc_free(code_from(cur, nd), st);
    } else if s[t] == ';' {
        lemma_step_frag_esc_free(code_from(cur, nd), st);
        lemma_codes_frag_esc_free(s, t + 1, b, 0, 0, step_stack(code_from(cur, nd), st));
        lemma_concat_esc_free(
            step_frag(code_from(cur, nd), st),
            codes_frag(s, t + 1, b, 0, 0, step_stack(code_from(cur, nd), st)),
        );
    } else {
        lemma_codes_frag_esc_free(s, t + 1, b, upd_cur(cur, nd, s[t]), upd_nd(nd), st);
    }
}

proof fn lemma_esc_html_esc_free(c: char)
    requires
        c != '\u{1b}',
    ensures
        esc_free(esc_html(c)),
{
    reveal_strlit("&lt;");
    reveal_strlit("&gt;");
    reveal_strlit("&amp;");
}

proof fn lemma_conv_esc_free(s: Seq<char>, i: int, st: Seq<Tag>)
    ensures
        esc_free(conv(s, i, st)),
    decreases s.len() - i,
{
    if i < 0 || i >= s.len() {
        lemma_close_all_esc_free(st);
    } else if s[i] == '\u{1b}' {
        if i + 1 < s.len() && s[i + 1] == '[' {
            lemma_params_end(s, i + 2);
            let pe = params_end(s, i + 2);
            if pe < s.len() && s[pe] == 'm' {
                lemma_codes_frag_esc_free(s, i + 2, pe, 0, 0, st);
                lemma_conv_esc_free(s, pe + 1, codes_stack(s, i + 2, pe, 0, 0, st));
                lemma_concat_esc_free(
                    codes_frag(s, i + 2, pe, 0, 0, st),
                    conv(s, pe + 1, codes_stack(s, i + 2, pe, 0, 0, st)),
                );
            } else if pe < s.len() {
                lemma_conv_esc_free(s, pe, st);
            } else {
                lemma_close_all_esc_free(st);
            }
        } else {
            lemma_conv_esc_free(s, i + 1, st);
        }
    } else {
        lemma_esc_html_esc_free(s[i]);
        lemma_conv_esc_free(s, i + 1, st);
        lemma_concat_esc_free(esc_html(s[i]), conv(s, i + 1, st));
    }
}

/// Malformed-input safety: whatever the input, the converter's output
/// contains no raw escape-introducer byte.
pub proof fn lemma_convert_no_introducer(s: Seq<char>)
    ensures
        esc_free(conv_spec(s)),
{
    lemma_conv_esc_free(s, 0, Seq::empty());
}

fn is_param(c: char) -> (r: bool)
    ensures
        r == is_param_char(c),
{
    let u = c as u32;
    (48 <= u && u <= 57) || c == ';'
}

/// Converts a text with embedded SGR escape sequences to HTML markup.
/// Literal text is copied with `<`, `>` and `&` escaped; recognized codes
/// become tags; unknown codes are ignored; malformed escape runs are
/// stripped; open tags are closed at end of input.
pub fn convert_ansi_to_html(input: &str) -> (r: String)
    ensures
        r@ == conv_spec(input@),
{
    let v = str_to_chars(input);
    let out = convert_chars(&v);
    chars_to_string(&out)
}

/// Variant of [`convert_ansi_to_html`] taking a rendering-strategy flag.
/// Both strategies translate to the same inline-style markup here, so the
/// flag does not change the output.
pub fn convert_ansi_to_html_with_options(input: &str, _use_classes: bool) -> (r: String)
    ensures
        r@ == conv_spec(input@),
{
    convert_ansi_to_html(input)
}

} // verus!
