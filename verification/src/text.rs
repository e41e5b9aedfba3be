//! Character-sequence utilities shared by the table engine and the escape
//! converter: splitting text into lines, joining lines with newlines,
//! wrapping a line into fixed-width chunks, padding, and line counting.

use vstd::prelude::*;

verus! {

/// Number of occurrences of `c` in `s`.
pub open spec fn count_char(s: Seq<char>, c: char) -> nat
    decreases s.len(),
{
    if s.len() == 0 {
        0
    } else {
        count_char(s.drop_last(), c) + (if s.last() == c {
            1nat
        } else {
            0nat
        })
    }
}

/// Number of newline-delimited lines in `s`: zero for the empty sequence,
/// otherwise one more than the number of newline characters.
pub open spec fn line_count(s: Seq<char>) -> nat {
    if s.len() == 0 {
        0
    } else {
        count_char(s, '\n') + 1
    }
}

/// Splits `s` at each newline. The result always has at least one element;
/// a trailing newline yields a trailing empty line.
pub open spec fn split_lines(s: Seq<char>) -> Seq<Seq<char>>
    decreases s.len(),
{
    if s.len() == 0 {
        seq![Seq::<char>::empty()]
    } else if s[0] == '\n' {
        seq![Seq::<char>::empty()] + split_lines(s.drop_first())
    } else {
        let rest = split_lines(s.drop_first());
        seq![seq![s[0]] + rest[0]] + rest.drop_first()
    }
}

/// Joins lines with single newline characters; no trailing newline.
pub open spec fn join_lines(ls: Seq<Seq<char>>) -> Seq<char>
    decreases ls.len(),
{
    if ls.len() == 0 {
        Seq::empty()
    } else if ls.len() == 1 {
        ls[0]
    } else {
        ls[0] + seq!['\n'] + join_lines(ls.drop_first())
    }
}

/// Concatenation of all elements, in order.
pub open spec fn concat_all(ls: Seq<Seq<char>>) -> Seq<char>
    decreases ls.len(),
{
    if ls.len() == 0 {
        Seq::empty()
    } else {
        ls[0] + concat_all(ls.drop_first())
    }
}

pub open spec fn max_nat(a: nat, b: nat) -> nat {
    if a >= b {
        a
    } else {
        b
    }
}

/// Length of the longest element.
pub open spec fn max_line_len(ls: Seq<Seq<char>>) -> nat
    decreases ls.len(),
{
    if ls.len() == 0 {
        0
    } else {
        max_nat(max_line_len(ls.drop_last()), ls.last().len())
    }
}

/// `n` repetitions of `c`.
pub open spec fn repeat_char(c: char, n: nat) -> Seq<char> {
    Seq::new(n, |i| c)
}

/// `s` padded on the right with spaces to length `w` (unchanged if already
/// at least that long).
pub open spec fn pad_to(s: Seq<char>, w: nat) -> Seq<char> {
    if s.len() >= w {
        s
    } else {
        s + repeat_char(' ', (w - s.len()) as nat)
    }
}

/// Breaks `s` into consecutive chunks of at most `w` characters. Always
/// yields at least one chunk; a width of zero leaves `s` unbroken.
pub open spec fn wrap_line(s: Seq<char>, w: nat) -> Seq<Seq<char>>
    decreases s.len(),
{
    if w == 0 || s.len() <= w {
        seq![s]
    } else {
        seq![s.take(w as int)] + wrap_line(s.skip(w as int), w)
    }
}

/// Wraps each line in turn, concatenating the chunk lists.
pub open spec fn wrap_all(ls: Seq<Seq<char>>, w: nat) -> Seq<Seq<char>>
    decreases ls.len(),
{
    if ls.len() == 0 {
        Seq::empty()
    } else {
        wrap_line(ls[0], w) + wrap_all(ls.drop_first(), w)
    }
}

/// The rendered lines of one cell: its content split at newlines, each line
/// wrapped to the column width.
pub open spec fn cell_chunks_of(c: Seq<char>, w: nat) -> Seq<Seq<char>> {
    wrap_all(split_lines(c), w)
}

/// `s` contains no newline character.
pub open spec fn no_newline(s: Seq<char>) -> bool {
    forall|i: int| 0 <= i < s.len() ==> s[i] != '\n'
}

/// Counting can start from the front as well as from the back.
pub proof fn lemma_count_char_first(s: Seq<char>, c: char)
    requires
        s.len() > 0,
    ensures
        count_char(s, c) == (if s[0] == c {
            1nat
        } else {
            0nat
        }) + count_char(s.drop_first(), c),
    decreases s.len(),
{
    if s.len() == 1 {
        assert(s.drop_last() =~= Seq::<char>::empty());
        assert(s.drop_first() =~= Seq::<char>::empty());
    } else {
        lemma_count_char_first(s.drop_last(), c);
        assert(s.drop_last().drop_first() =~= s.drop_first().drop_last());
        assert(s.drop_last()[0] == s[0]);
        assert(s.drop_first().last() == s.last());
    }
}

/// A sequence without `c` has count zero.
pub proof fn lemma_count_char_zero(s: Seq<char>, c: char)
    requires
        forall|i: int| 0 <= i < s.len() ==> s[i] != c,
    ensures
        count_char(s, c) == 0,
    decreases s.len(),
{
    if s.len() > 0 {
        lemma_count_char_zero(s.drop_last(), c);
    }
}

/// Counting distributes over concatenation.
pub proof fn lemma_count_char_concat(a: Seq<char>, b: Seq<char>, c: char)
    ensures
        count_char(a + b, c) == count_char(a, c) + count_char(b, c),
    decreases b.len(),
{
    if b.len() == 0 {
        assert(a + b =~= a);
    } else {
        lemma_count_char_concat(a, b.drop_last(), c);
        assert((a + b).drop_last() =~= a + b.drop_last());
        assert((a + b).last() == b.last());
    }
}

/// Splitting yields one more line than there are newlines.
pub proof fn lemma_split_lines_len(s: Seq<char>)
    ensures
        split_lines(s).len() == count_char(s, '\n') + 1,
    decreases s.len(),
{
    if s.len() == 0 {
    } else {
        lemma_split_lines_len(s.drop_first());
        lemma_count_char_first(s, '\n');
    }
}

/// Joining the split lines restores the original text.
pub proof fn lemma_split_join(s: Seq<char>)
    ensures
        join_lines(split_lines(s)) == s,
    decreases s.len(),
{
    lemma_split_lines_len(s);
    if s.len() == 0 {
        assert(join_lines(split_lines(s)) =~= s);
    } else if s[0] == '\n' {
        lemma_split_join(s.drop_first());
        lemma_split_lines_len(s.drop_first());
        let ls = split_lines(s);
        assert(ls.drop_first() =~= split_lines(s.drop_first()));
        assert(join_lines(ls) =~= seq!['\n'] + s.drop_first());
        assert(seq!['\n'] + s.drop_first() =~= s);
    } else {
        lemma_split_join(s.drop_first());
        let r = split_lines(s.drop_first());
        let ls = split_lines(s);
        if r.len() == 1 {
            assert(ls.len() == 1);
            assert(join_lines(r) == r[0]);
            assert(ls[0] =~= seq![s[0]] + r[0]);
            assert(seq![s[0]] + s.drop_first() =~= s);
        } else {
            assert(ls.len() >= 2);
            assert(ls[0] == seq![s[0]] + r[0]);
            assert(ls.drop_first() =~= r.drop_first());
            assert(join_lines(r) == r[0] + seq!['\n'] + join_lines(r.drop_first()));
            assert(join_lines(ls) == ls[0] + seq!['\n'] + join_lines(ls.drop_first()));
            assert(join_lines(ls) =~= seq![s[0]] + (r[0] + seq!['\n'] + join_lines(
                r.drop_first(),
            )));
            assert(seq![s[0]] + s.drop_first() =~= s);
        }
    }
}

/// No split line contains a newline.
pub proof fn lemma_split_no_newline(s: Seq<char>)
    ensures
        forall|t: int|
            0 <= t < split_lines(s).len() ==> no_newline(#[trigger] split_lines(s)[t]),
    decreases s.len(),
{
    if s.len() == 0 {
        assert(no_newline(split_lines(s)[0]));
    } else if s[0] == '\n' {
        lemma_split_no_newline(s.drop_first());
        let r = split_lines(s.drop_first());
        let ls = split_lines(s);
        assert forall|t: int| 0 <= t < ls.len() implies no_newline(#[trigger] ls[t]) by {
            if t == 0 {
                assert(no_newline(Seq::<char>::empty()));
            } else {
                assert(ls[t] == r[t - 1]);
            }
        }
    } else {
        lemma_split_no_newline(s.drop_first());
        let r = split_lines(s.drop_first());
        let ls = split_lines(s);
        assert forall|t: int| 0 <= t < ls.len() implies no_newline(#[trigger] ls[t]) by {
            if t == 0 {
                assert(no_newline(r[0]));
                assert(forall|i: int|
                    0 <= i < ls[0].len() ==> ls[0][i] == (seq![s[0]] + r[0])[i]);
            } else {
                assert(ls[t] == r[t]);
            }
        }
    }
}

/// Appending one character extends the last line, or starts a new one.
pub proof fn lemma_split_snoc(s: Seq<char>, c: char)
    ensures
        c == '\n' ==> split_lines(s.push(c)) == split_lines(s) + seq![Seq::<char>::empty()],
        c != '\n' ==> split_lines(s.push(c)) == split_lines(s).update(
            split_lines(s).len() - 1,
            split_lines(s).last().push(c),
        ),
    decreases s.len(),
{
    lemma_split_lines_len(s);
    if s.len() == 0 {
        assert(s.push(c).drop_first() =~= Seq::<char>::empty());
        assert(s.push(c).drop_first() == s);
        if c == '\n' {
            assert(s.push(c)[0] == '\n');
            assert(split_lines(s.push(c)) == seq![Seq::<char>::empty()] + split_lines(s));
            assert(split_lines(s.push(c)) =~~= split_lines(s) + seq![Seq::<char>::empty()]);
        } else {
            assert(s.push(c)[0] == c);
            let ls = split_lines(s.push(c));
            assert(ls == seq![seq![c] + split_lines(s)[0]] + split_lines(s).drop_first());
            assert(ls =~~= seq![seq![c]]);
            assert(split_lines(s).update(0, split_lines(s).last().push(c)) =~~= seq![seq![c]]);
        }
    } else {
        lemma_split_snoc(s.drop_first(), c);
        assert(s.push(c).drop_first() =~= s.drop_first().push(c));
        let r = split_lines(s.drop_first());
        let rp = split_lines(s.drop_first().push(c));
        lemma_split_lines_len(s.drop_first());
        if s[0] == '\n' {
            assert(s.push(c)[0] == '\n');
            if c == '\n' {
                assert(split_lines(s.push(c)) =~= seq![Seq::<char>::empty()] + rp);
                assert(seq![Seq::<char>::empty()] + (r + seq![Seq::<char>::empty()]) =~= (
                seq![Seq::<char>::empty()] + r) + seq![Seq::<char>::empty()]);
            } else {
                let ls = split_lines(s);
                assert(split_lines(s.push(c)) =~= seq![Seq::<char>::empty()] + rp);
                assert(ls.last() == r.last());
                assert(seq![Seq::<char>::empty()] + r.update(r.len() - 1, r.last().push(c))
                    =~= ls.update(ls.len() - 1, ls.last().push(c)));
            }
        } else {
            assert(s.push(c)[0] == s[0]);
            let ls = split_lines(s);
            let lsp = split_lines(s.push(c));
            assert(lsp =~= seq![seq![s[0]] + rp[0]] + rp.drop_first());
            if c == '\n' {
                assert(rp =~= r + seq![Seq::<char>::empty()]);
                assert(rp[0] == r[0]);
                assert(rp.drop_first() =~= r.drop_first() + seq![Seq::<char>::empty()]);
                assert(lsp =~= ls + seq![Seq::<char>::empty()]);
            } else {
                assert(rp =~= r.update(r.len() - 1, r.last().push(c)));
                if r.len() == 1 {
                    assert(rp[0] == r[0].push(c));
                    assert(rp.drop_first() =~= r.drop_first());
                    assert(ls.last() == seq![s[0]] + r[0]);
                    assert(seq![s[0]] + r[0].push(c) =~= (seq![s[0]] + r[0]).push(c));
                    assert(lsp =~= ls.update(ls.len() - 1, ls.last().push(c)));
                } else {
                    assert(rp[0] == r[0]);
                    assert(rp.drop_first() =~= r.drop_first().update(
                        r.drop_first().len() - 1,
                        r.drop_first().last().push(c),
                    ));
                    assert(ls.last() == r.last());
                    assert(lsp =~= ls.update(ls.len() - 1, ls.last().push(c)));
                }
            }
        }
    }
}

/// Wrapping loses no characters: the chunks concatenate back to the line.
pub proof fn lemma_wrap_concat(s: Seq<char>, w: nat)
    ensures
        concat_all(wrap_line(s, w)) == s,
    decreases s.len(),
{
    if w == 0 || s.len() <= w {
        assert(wrap_line(s, w) == seq![s]);
        assert(seq![s].drop_first() =~= Seq::<Seq<char>>::empty());
        assert(concat_all(seq![s]) == s + concat_all(Seq::<Seq<char>>::empty()));
        assert(concat_all(wrap_line(s, w)) =~= s);
    } else {
        lemma_wrap_concat(s.skip(w as int), w);
        let ls = wrap_line(s, w);
        assert(ls.drop_first() =~= wrap_line(s.skip(w as int), w));
        assert(concat_all(ls) =~= s.take(w as int) + s.skip(w as int));
        assert(s.take(w as int) + s.skip(w as int) =~= s);
    }
}

/// Wrapping a list of lines loses no characters either.
pub proof fn lemma_wrap_all_concat(ls: Seq<Seq<char>>, w: nat)
    ensures
        concat_all(wrap_all(ls, w)) == concat_all(ls),
    decreases ls.len(),
{
    if ls.len() == 0 {
    } else {
        lemma_wrap_all_concat(ls.drop_first(), w);
        lemma_wrap_concat(ls[0], w);
        lemma_concat_all_append(wrap_line(ls[0], w), wrap_all(ls.drop_first(), w));
    }
}

/// Concatenation of element lists distributes over list concatenation.
pub proof fn lemma_concat_all_append(a: Seq<Seq<char>>, b: Seq<Seq<char>>)
    ensures
        concat_all(a + b) == concat_all(a) + concat_all(b),
    decreases a.len(),
{
    if a.len() == 0 {
        assert(a + b =~= b);
        assert(concat_all(a) + concat_all(b) =~= concat_all(b));
    } else {
        lemma_concat_all_append(a.drop_first(), b);
        assert((a + b).drop_first() =~= a.drop_first() + b);
        assert((a + b)[0] == a[0]);
        assert(a[0] + (concat_all(a.drop_first()) + concat_all(b)) =~= (a[0] + concat_all(
            a.drop_first(),
        )) + concat_all(b));
    }
}

/// Every chunk of a newline-free line is newline-free.
pub proof fn lemma_wrap_no_newline(s: Seq<char>, w: nat)
    requires
        no_newline(s),
    ensures
        forall|t: int|
            0 <= t < wrap_line(s, w).len() ==> no_newline(#[trigger] wrap_line(s, w)[t]),
    decreases s.len(),
{
    if w == 0 || s.len() <= w {
    } else {
        assert(no_newline(s.skip(w as int)));
        lemma_wrap_no_newline(s.skip(w as int), w);
        let ls = wrap_line(s, w);
        assert forall|t: int| 0 <= t < ls.len() implies no_newline(#[trigger] ls[t]) by {
            if t == 0 {
                assert(no_newline(s.take(w as int)));
            } else {
                assert(ls[t] == wrap_line(s.skip(w as int), w)[t - 1]);
            }
        }
    }
}

/// All chunks of a cell are newline-free.
pub proof fn lemma_cell_chunks_no_newline(c: Seq<char>, w: nat)
    ensures
        forall|t: int|
            0 <= t < cell_chunks_of(c, w).len() ==> no_newline(
                #[trigger] cell_chunks_of(c, w)[t],
            ),
{
    lemma_split_no_newline(c);
    lemma_wrap_all_no_newline(split_lines(c), w);
}

/// Wrapping newline-free lines yields newline-free chunks.
pub proof fn lemma_wrap_all_no_newline(ls: Seq<Seq<char>>, w: nat)
    requires
        forall|t: int| 0 <= t < ls.len() ==> no_newline(#[trigger] ls[t]),
    ensures
        forall|t: int|
            0 <= t < wrap_all(ls, w).len() ==> no_newline(#[trigger] wrap_all(ls, w)[t]),
    decreases ls.len(),
{
    if ls.len() == 0 {
    } else {
        assert(forall|t: int|
            0 <= t < ls.drop_first().len() ==> no_newline(#[trigger] ls.drop_first()[t]));
        lemma_wrap_all_no_newline(ls.drop_first(), w);
        lemma_wrap_no_newline(ls[0], w);
        let a = wrap_line(ls[0], w);
        let b = wrap_all(ls.drop_first(), w);
        assert forall|t: int| 0 <= t < (a + b).len() implies no_newline(#[trigger] (a + b)[t]) by {
            if t < a.len() {
                assert((a + b)[t] == a[t]);
            } else {
                assert((a + b)[t] == b[t - a.len()]);
            }
        }
    }
}

/// Joining nonempty newline-free lines produces a text with exactly that
/// many newline-delimited lines.
pub proof fn lemma_join_line_count(ls: Seq<Seq<char>>)
    requires
        forall|t: int|
            0 <= t < ls.len() ==> no_newline(#[trigger] ls[t]) && ls[t].len() > 0,
    ensures
        line_count(join_lines(ls)) == ls.len(),
    decreases ls.len(),
{
    if ls.len() == 0 {
    } else if ls.len() == 1 {
        lemma_count_char_zero(ls[0], '\n');
    } else {
        assert(forall|t: int|
            0 <= t < ls.drop_first().len() ==> no_newline(#[trigger] ls.drop_first()[t])
                && ls.drop_first()[t].len() > 0);
        lemma_join_line_count(ls.drop_first());
        lemma_count_char_zero(ls[0], '\n');
        lemma_count_char_concat(ls[0], seq!['\n'], '\n');
        lemma_count_char_concat(ls[0] + seq!['\n'], join_lines(ls.drop_first()), '\n');
        assert(count_char(seq!['\n'], '\n') == 1) by {
            lemma_count_char_first(seq!['\n'], '\n');
            assert(seq!['\n'].drop_first() =~= Seq::<char>::empty());
            lemma_count_char_zero(seq!['\n'].drop_first(), '\n');
        }
        assert(join_lines(ls.drop_first()).len() > 0) by {
            lemma_join_first_nonempty(ls.drop_first());
        }
    }
}

/// A join of lines whose first line is nonempty is nonempty.
pub proof fn lemma_join_first_nonempty(ls: Seq<Seq<char>>)
    requires
        ls.len() > 0,
        ls[0].len() > 0,
    ensures
        join_lines(ls).len() > 0,
{
}

/// Appending a line to a join inserts one newline separator.
pub proof fn lemma_join_snoc(ls: Seq<Seq<char>>, l: Seq<char>)
    ensures
        ls.len() == 0 ==> join_lines(ls.push(l)) == l,
        ls.len() > 0 ==> join_lines(ls.push(l)) == join_lines(ls) + seq!['\n'] + l,
    decreases ls.len(),
{
    if ls.len() == 0 {
        assert(join_lines(ls.push(l)) == ls.push(l)[0]);
    } else if ls.len() == 1 {
        assert(ls.push(l).drop_first() =~~= seq![l]);
        assert(join_lines(ls.push(l)) == ls[0] + seq!['\n'] + join_lines(seq![l]));
    } else {
        lemma_join_snoc(ls.drop_first(), l);
        assert(ls.push(l).drop_first() =~~= ls.drop_first().push(l));
        assert(join_lines(ls.push(l)) == ls[0] + seq!['\n'] + join_lines(
            ls.drop_first().push(l),
        ));
        assert(ls[0] + seq!['\n'] + (join_lines(ls.drop_first()) + seq!['\n'] + l) =~= (ls[0]
            + seq!['\n'] + join_lines(ls.drop_first())) + seq!['\n'] + l);
    }
}

/// Relies on `Iterator::collect` for `String`: the collected string's
/// characters are exactly the iterated characters, in order.
#[verifier::external_body]
pub fn chars_to_string(v: &Vec<char>) -> (s: String)
    ensures
        s@ == v@,
{
    v.iter().collect()
}

/// The characters of `s`, in order, as a vector.
pub fn str_to_chars(s: &str) -> (v: Vec<char>)
    ensures
        v@ == s@,
{
    let n = s.unicode_len();
    let mut v: Vec<char> = Vec::new();
    if s.is_ascii() {
        let mut i: usize = 0;
        while i < n
            invariant
                i <= n,
                n == s@.len(),
                vstd::string::is_ascii(s),
                v@ == s@.take(i as int),
            decreases n - i,
        {
            let b = s.get_ascii(i);
            proof {
                assert('\0' <= s@[i as int] <= '\u{7f}');
                assert(b as char == s@[i as int]);
                assert(s@.take(i as int).push(s@[i as int]) =~= s@.take(i + 1 as int));
            }
            v.push(b as char);
            i += 1;
        }
    } else {
        let mut i: usize = 0;
        while i < n
            invariant
                i <= n,
                n == s@.len(),
                v@ == s@.take(i as int),
            decreases n - i,
        {
            let c = s.get_char(i);
            proof {
                assert(s@.take(i as int).push(s@[i as int]) =~= s@.take(i + 1 as int));
            }
            v.push(c);
            i += 1;
        }
    }
    proof {
        assert(s@.take(n as int) =~= s@);
    }
    v
}

/// Appends all of `src` to `out`.
pub fn extend_chars(out: &mut Vec<char>, src: &Vec<char>)
    ensures
        final(out)@ == old(out)@ + src@,
{
    let mut j: usize = 0;
    proof {
        assert(out@ =~= old(out)@ + src@.take(0));
    }
    while j < src.len()
        invariant
            j <= src.len(),
            out@ == old(out)@ + src@.take(j as int),
        decreases src.len() - j,
    {
        out.push(src[j]);
        proof {
            assert(old(out)@ + src@.take(j + 1 as int) =~= (old(out)@ + src@.take(
                j as int,
            )).push(src@[j as int]));
        }
        j += 1;
    }
    proof {
        assert(src@.take(src@.len() as int) =~= src@);
    }
}

/// Appends the characters of `s` to `out`.
pub fn push_str_chars(out: &mut Vec<char>, s: &str)
    ensures
        final(out)@ == old(out)@ + s@,
{
    let v = str_to_chars(s);
    extend_chars(out, &v);
}

/// Appends `n` copies of `c` to `out`.
pub fn push_repeat(out: &mut Vec<char>, c: char, n: usize)
    ensures
        final(out)@ == old(out)@ + repeat_char(c, n as nat),
{
    let mut j: usize = 0;
    proof {
        assert(out@ =~= old(out)@ + repeat_char(c, 0));
    }
    while j < n
        invariant
            j <= n,
            out@ == old(out)@ + repeat_char(c, j as nat),
        decreases n - j,
    {
        out.push(c);
        proof {
            assert(old(out)@ + repeat_char(c, (j + 1) as nat) =~= (old(out)@ + repeat_char(
                c,
                j as nat,
            )).push(c));
        }
        j += 1;
    }
}

/// Splits `v` at newline characters, per [`split_lines`].
pub fn split_chars(v: &Vec<char>) -> (r: Vec<Vec<char>>)
    ensures
        r.deep_view() == split_lines(v@),
{
    let mut done: Vec<Vec<char>> = Vec::new();
    let mut cur: Vec<char> = Vec::new();
    let mut i: usize = 0;
    proof {
        assert(v@.take(0) =~= Seq::<char>::empty());
        assert(done.deep_view().push(cur@) =~~= split_lines(v@.take(0)));
    }
    while i < v.len()
        invariant
            i <= v.len(),
            done.deep_view().push(cur@) == split_lines(v@.take(i as int)),
        decreases v.len() - i,
    {
        let c = v[i];
        proof {
            assert(v@.take(i as int).push(c) =~= v@.take(i + 1 as int));
            lemma_split_snoc(v@.take(i as int), c);
            lemma_split_lines_len(v@.take(i as int));
        }
        if c == '\n' {
            let ghost prev_done = done.deep_view();
            let ghost prev_cur = cur@;
            done.push(cur);
            cur = Vec::new();
            proof {
                assert(done.deep_view() =~~= prev_done.push(prev_cur));
                assert(done.deep_view().push(cur@) =~~= split_lines(v@.take(i as int))
                    + seq![Seq::<char>::empty()]);
            }
        } else {
            let ghost prev = split_lines(v@.take(i as int));
            cur.push(c);
            proof {
                assert(prev.last() == prev[prev.len() - 1]);
                assert(done.deep_view().push(cur@) =~~= prev.update(
                    prev.len() - 1,
                    prev.last().push(c),
                ));
            }
        }
        i += 1;
    }
    proof {
        assert(v@.take(v@.len() as int) =~= v@);
    }
    done.push(cur);
    proof {
        assert(done.deep_view() =~~= split_lines(v@));
    }
    done
}

/// Longest line of the cell's content.
pub fn cell_width(cell: &Vec<char>) -> (w: usize)
    ensures
        w as nat == max_line_len(split_lines(cell@)),
{
    let parts = split_chars(cell);
    let ghost pd = parts.deep_view();
    let mut w: usize = 0;
    let mut t: usize = 0;
    proof {
        assert(pd.take(0) =~~= Seq::<Seq<char>>::empty());
    }
    while t < parts.len()
        invariant
            t <= parts.len(),
            pd == parts.deep_view(),
            pd == split_lines(cell@),
            w as nat == max_line_len(pd.take(t as int)),
        decreases parts.len() - t,
    {
        proof {
            assert(pd.take(t + 1 as int).drop_last() =~~= pd.take(t as int));
            assert(pd.take(t + 1 as int).last() == pd[t as int]);
            assert(pd[t as int] == parts@[t as int]@);
        }
        if parts[t].len() > w {
            w = parts[t].len();
        }
        t += 1;
    }
    proof {
        assert(pd.take(pd.len() as int) =~~= pd);
    }
    w
}

/// Appends the chunks of one wrapped line to `chunks`.
pub fn push_wrapped(chunks: &mut Vec<Vec<char>>, line: &Vec<char>, w: usize)
    requires
        w >= 1,
    ensures
        final(chunks).deep_view() == old(chunks).deep_view() + wrap_line(line@, w as nat),
{
    let ghost orig = old(chunks).deep_view();
    let mut start: usize = 0;
    proof {
        assert(line@.skip(0) =~= line@);
        assert(chunks.deep_view() + wrap_line(line@.skip(0), w as nat) =~~= orig + wrap_line(
            line@,
            w as nat,
        ));
    }
    while line.len() - start > w
        invariant
            w >= 1,
            start <= line.len(),
            chunks.deep_view() + wrap_line(line@.skip(start as int), w as nat) == orig
                + wrap_line(line@, w as nat),
        decreases line.len() - start,
    {
        let mut ch: Vec<char> = Vec::new();
        let mut j: usize = start;
        while j < start + w
            invariant
                start <= j <= start + w,
                start + w <= line.len(),
                ch@ == line@.subrange(start as int, j as int),
            decreases start + w - j,
        {
            ch.push(line[j]);
            proof {
                assert(line@.subrange(start as int, j + 1 as int) =~= line@.subrange(
                    start as int,
                    j as int,
                ).push(line@[j as int]));
            }
            j += 1;
        }
        let ghost prev = chunks.deep_view();
        let ghost rem = line@.skip(start as int);
        chunks.push(ch);
        proof {
            assert(rem.len() > w);
            assert(rem.take(w as int) =~= line@.subrange(start as int, (start + w) as int));
            assert(rem.skip(w as int) =~= line@.skip((start + w) as int));
            assert(wrap_line(rem, w as nat) == seq![rem.take(w as int)] + wrap_line(
                rem.skip(w as int),
                w as nat,
            ));
            assert(chunks.deep_view() =~~= prev.push(ch@));
            assert(chunks.deep_view() + wrap_line(line@.skip((start + w) as int), w as nat)
                =~~= prev + wrap_line(rem, w as nat));
        }
        start += w;
    }
    let mut last: Vec<char> = Vec::new();
    let mut j: usize = start;
    while j < line.len()
        invariant
            start <= j <= line.len(),
            last@ == line@.subrange(start as int, j as int),
        decreases line.len() - j,
    {
        last.push(line[j]);
        proof {
            assert(line@.subrange(start as int, j + 1 as int) =~= line@.subrange(
                start as int,
                j as int,
            ).push(line@[j as int]));
        }
        j += 1;
    }
    let ghost prev = chunks.deep_view();
    let ghost rem = line@.skip(start as int);
    chunks.push(last);
    proof {
        assert(last@ =~= rem);
        assert(wrap_line(rem, w as nat) == seq![rem]);
        assert(chunks.deep_view() =~~= prev.push(rem));
        assert(chunks.deep_view() =~~= orig + wrap_line(line@, w as nat));
    }
}

/// All rendered chunk lines of one cell at column width `w`.
pub fn chunks_of_cell(cell: &Vec<char>, w: usize) -> (r: Vec<Vec<char>>)
    requires
        w >= 1,
    ensures
        r.deep_view() == cell_chunks_of(cell@, w as nat),
{
    let parts = split_chars(cell);
    let ghost pd = parts.deep_view();
    let mut r: Vec<Vec<char>> = Vec::new();
    let mut t: usize = 0;
    proof {
        assert(pd.skip(0) =~~= pd);
        assert(r.deep_view() + wrap_all(pd.skip(0), w as nat) =~~= wrap_all(pd, w as nat));
    }
    while t < parts.len()
        invariant
            w >= 1,
            t <= parts.len(),
            pd == parts.deep_view(),
            pd == split_lines(cell@),
            r.deep_view() + wrap_all(pd.skip(t as int), w as nat) == wrap_all(pd, w as nat),
        decreases parts.len() - t,
    {
        let ghost prev = r.deep_view();
        push_wrapped(&mut r, &parts[t], w);
        proof {
            let rem = pd.skip(t as int);
            assert(rem[0] == pd[t as int]);
            assert(pd[t as int] == parts@[t as int]@);
            assert(rem.drop_first() =~~= pd.skip(t + 1 as int));
            assert(wrap_all(rem, w as nat) == wrap_line(rem[0], w as nat) + wrap_all(
                rem.drop_first(),
                w as nat,
            ));
            assert(r.deep_view() + wrap_all(pd.skip(t + 1 as int), w as nat) =~~= prev
                + wrap_all(rem, w as nat));
        }
        t += 1;
    }
    proof {
        assert(pd.skip(pd.len() as int) =~~= Seq::<Seq<char>>::empty());
        assert(r.deep_view() + wrap_all(pd.skip(pd.len() as int), w as nat) =~~= r.deep_view());
    }
    r
}

/// Joins rendered lines with newline characters.
pub fn join_exec(lines: &Vec<Vec<char>>) -> (r: Vec<char>)
    ensures
        r@ == join_lines(lines.deep_view()),
{
    let ghost ld = lines.deep_view();
    let mut r: Vec<char> = Vec::new();
    let mut i: usize = 0;
    proof {
        assert(ld.take(0) =~~= Seq::<Seq<char>>::empty());
    }
    while i < lines.len()
        invariant
            i <= lines.len(),
            ld == lines.deep_view(),
            r@ == join_lines(ld.take(i as int)),
        decreases lines.len() - i,
    {
        proof {
            lemma_join_snoc(ld.take(i as int), ld[i as int]);
            assert(ld.take(i + 1 as int) =~~= ld.take(i as int).push(ld[i as int]));
            assert(ld[i as int] == lines@[i as int]@);
        }
        if i > 0 {
            r.push('\n');
        }
        extend_chars(&mut r, &lines[i]);
        proof {
            if i > 0 {
                assert(r@ =~= join_lines(ld.take(i as int)) + seq!['\n'] + ld[i as int]);
            }
        }
        i += 1;
    }
    proof {
        assert(ld.take(ld.len() as int) =~~= ld);
    }
    r
}

} // verus!
