//! Small text utilities: indenting a block, removing a common indentation,
//! and drawing a box around a block.

use vstd::prelude::*;
use vstd::string::StrSliceExecFns;
use crate::parser::spaces;
use crate::text::indent_of;
use crate::text::lemma_indent_of;
use crate::text::lines_view;
use crate::text::push_range;
use crate::text::split_lines;
use crate::text::get_indent;
use crate::text::str_lines;
use crate::text::string_from_chars;
use crate::text::to_chars;

verus! {

/// The lines, each with the given number of spaces in front, joined by line
/// feeds.
pub open spec fn indent_lines(lines: Seq<Seq<char>>, n: nat) -> Seq<char>
    decreases lines.len(),
{
    if lines.len() == 0 {
        Seq::empty()
    } else if lines.len() == 1 {
        spaces(n) + lines[0]
    } else {
        indent_lines(lines.drop_last(), n) + seq!['\n'] + spaces(n) + lines.last()
    }
}

pub open spec fn indent_spec(t: Seq<char>, n: nat) -> Seq<char> {
    indent_lines(str_lines(t), n)
}

/// Push `n` spaces.
fn push_spaces(out: &mut Vec<char>, n: usize)
    ensures
        final(out)@ == old(out)@ + spaces(n as nat),
{
    let mut i: usize = 0;
    while i < n
        invariant
            0 <= i <= n,
            out@ == old(out)@ + spaces(i as nat),
        decreases n - i,
    {
        out.push(' ');
        proof {
            assert(old(out)@ + spaces(i as nat + 1) =~= (old(out)@ + spaces(i as nat)).push(' '));
        }
        i = i + 1;
    }
}

/// Indent every line of a text by the given number of spaces. As with
/// `str::lines`, a trailing line terminator is not a line of its own and is
/// not reproduced.
pub fn indent(s: &str, width: usize) -> (r: String)
    ensures
        r@ == indent_spec(s@, width as nat),
{
    let chars = to_chars(s);
    let lines = split_lines(&chars);
    let ghost lv = str_lines(s@);
    let n = lines.len();
    let mut out: Vec<char> = Vec::new();
    let mut i: usize = 0;
    proof {
        assert(indent_lines(lv.take(0), width as nat) =~= out@);
    }
    while i < n
        invariant
            0 <= i <= n,
            n == lines@.len(),
            lines_view(lines@) == lv,
            lv.len() == n,
            forall|j: int| 0 <= j < n ==> #[trigger] lv[j] == lines@[j]@,
            out@ == indent_lines(lv.take(i as int), width as nat),
        decreases n - i,
    {
        if i > 0 {
            out.push('\n');
        }
        push_spaces(&mut out, width);
        let line = &lines[i];
        push_range(&mut out, line, 0, line.len());
        proof {
            assert(line@.subrange(0, line@.len() as int) =~= line@);
            assert(lv.take(i + 1).drop_last() =~= lv.take(i as int));
            assert(lv.take(i + 1).last() == lv[i as int]);
            if i == 0 {
                assert(out@ =~= indent_lines(lv.take(1), width as nat));
            } else {
                assert(out@ =~= indent_lines(lv.take(i as int), width as nat) + seq!['\n']
                    + spaces(width as nat) + lv[i as int]);
            }
        }
        i = i + 1;
    }
    proof {
        assert(lv.take(n as int) =~= lv);
    }
    string_from_chars(&out)
}

/// The least indentation among the lines.
pub open spec fn min_indent(ls: Seq<Seq<char>>) -> int
    recommends
        ls.len() > 0,
    decreases ls.len(),
{
    if ls.len() <= 1 {
        indent_of(ls[0])
    } else if indent_of(ls.last()) < min_indent(ls.drop_last()) {
        indent_of(ls.last())
    } else {
        min_indent(ls.drop_last())
    }
}

pub proof fn lemma_min_indent(ls: Seq<Seq<char>>)
    requires
        ls.len() > 0,
    ensures
        forall|i: int| 0 <= i < ls.len() ==> min_indent(ls) <= indent_of(#[trigger] ls[i]),
        exists|i: int| 0 <= i < ls.len() && min_indent(ls) == indent_of(#[trigger] ls[i]),
    decreases ls.len(),
{
    if ls.len() == 1 {
        assert(min_indent(ls) == indent_of(ls[0]));
    } else {
        lemma_min_indent(ls.drop_last());
        assert forall|i: int| 0 <= i < ls.len() implies min_indent(ls) <= indent_of(
            #[trigger] ls[i],
        ) by {
            if i < ls.len() - 1 {
                assert(ls.drop_last()[i] == ls[i]);
            }
        }
        if min_indent(ls) == indent_of(ls.last()) {
            assert(min_indent(ls) == indent_of(ls[ls.len() - 1]));
        } else {
            let j = choose|j: int|
                0 <= j < ls.drop_last().len() && min_indent(ls.drop_last()) == indent_of(
                    #[trigger] ls.drop_last()[j],
                );
            assert(ls.drop_last()[j] == ls[j]);
            assert(min_indent(ls) == indent_of(ls[j]));
        }
    }
}

/// Remove the least common indentation from every line of the given block;
/// the block must hold at least one line.
pub fn dedent<'a>(lines: &Vec<&'a str>) -> (r: Vec<&'a str>)
    requires
        lines@.len() > 0,
    ensures
        r@.len() == lines@.len(),
        forall|i: int|
            0 <= i < lines@.len() ==> (#[trigger] r@[i])@ == lines@[i]@.skip(min_indent(
                lines_strs_view(lines@),
            )),
{
    let ghost lv = lines_strs_view(lines@);
    let n = lines.len();
    let mut least: usize = get_indent(lines[0]);
    let mut i: usize = 1;
    proof {
        assert forall|j: int| 0 <= j < lv.len() implies lv[j] == lines@[j]@ by {}
        assert(lv.take(1).drop_last() =~= lv.take(0));
        assert(lv.take(1)[0] == lv[0]);
        assert(least == min_indent(lv.take(1)));
    }
    while i < n
        invariant
            1 <= i <= n,
            n == lines@.len(),
            lv == lines_strs_view(lines@),
            lv.len() == n,
            forall|j: int| 0 <= j < n ==> #[trigger] lv[j] == lines@[j]@,
            least == min_indent(lv.take(i as int)),
        decreases n - i,
    {
        let ind = get_indent(lines[i]);
        proof {
            assert(lv.take(i + 1).drop_last() =~= lv.take(i as int));
            assert(lv.take(i + 1).last() == lv[i as int]);
        }
        if ind < least {
            least = ind;
        }
        i = i + 1;
    }
    proof {
        assert(lv.take(n as int) =~= lv);
        lemma_min_indent(lv);
    }
    let mut r: Vec<&'a str> = Vec::new();
    let mut j: usize = 0;
    while j < n
        invariant
            0 <= j <= n,
            n == lines@.len(),
            lv == lines_strs_view(lines@),
            lv.len() == n,
            forall|t: int| 0 <= t < n ==> #[trigger] lv[t] == lines@[t]@,
            least == min_indent(lv),
            forall|t: int| 0 <= t < n ==> least <= indent_of(#[trigger] lv[t]),
            r@.len() == j,
            forall|t: int| 0 <= t < j ==> (#[trigger] r@[t])@ == lines@[t]@.skip(least as int),
        decreases n - j,
    {
        let line: &'a str = lines[j];
        proof {
            lemma_indent_of(line@);
            assert(line@ == lv[j as int]);
            assert(least <= indent_of(line@));
        }
        let len = line.unicode_len();
        let piece = line.substring_char(least, len);
        proof {
            assert(piece@ =~= line@.skip(least as int));
        }
        r.push(piece);
        j = j + 1;
    }
    r
}

/// The character sequences of a vector of string slices.
pub open spec fn lines_strs_view(v: Seq<&str>) -> Seq<Seq<char>> {
    Seq::new(v.len(), |i: int| v[i]@)
}

/// The length of the longest line.
pub open spec fn max_line_len(ls: Seq<Seq<char>>) -> int
    recommends
        ls.len() > 0,
    decreases ls.len(),
{
    if ls.len() <= 1 {
        ls[0].len() as int
    } else if ls.last().len() as int > max_line_len(ls.drop_last()) {
        ls.last().len() as int
    } else {
        max_line_len(ls.drop_last())
    }
}

pub proof fn lemma_max_line_len(ls: Seq<Seq<char>>)
    requires
        ls.len() > 0,
    ensures
        forall|i: int| 0 <= i < ls.len() ==> (#[trigger] ls[i]).len() <= max_line_len(ls),
        max_line_len(ls) >= 0,
    decreases ls.len(),
{
    if ls.len() > 1 {
        lemma_max_line_len(ls.drop_last());
        assert forall|i: int| 0 <= i < ls.len() implies (#[trigger] ls[i]).len() <= max_line_len(
            ls,
        ) by {
            if i < ls.len() - 1 {
                assert(ls.drop_last()[i] == ls[i]);
            }
        }
    }
}

/// One boxed content line: a vertical bar, the line, padding out to the
/// width, a vertical bar and a line feed.
pub open spec fn boxed_line(l: Seq<char>, w: int) -> Seq<char>
    recommends
        l.len() <= w,
{
    seq!['\u{2502}'] + l + spaces((w - l.len()) as nat) + seq!['\u{2502}', '\n']
}

pub open spec fn boxed_lines(ls: Seq<Seq<char>>, w: int) -> Seq<char>
    decreases ls.len(),
{
    if ls.len() == 0 {
        Seq::empty()
    } else {
        boxed_lines(ls.drop_last(), w) + boxed_line(ls.last(), w)
    }
}

/// A run of horizontal bars.
pub open spec fn bars(n: nat) -> Seq<char> {
    Seq::new(n, |i: int| '\u{2500}')
}

/// The box drawn around a text: a top border, each line padded to the width
/// of the longest one between vertical bars, and a bottom border.
pub open spec fn add_box_spec(t: Seq<char>) -> Seq<char> {
    let ls = str_lines(t);
    let w = max_line_len(ls);
    seq!['\u{250c}'] + bars(w as nat) + seq!['\u{2510}', '\n'] + boxed_lines(ls, w) + seq![
        '\u{2514}',
    ] + bars(w as nat) + seq!['\u{2518}']
}

fn push_bars(out: &mut Vec<char>, n: usize)
    ensures
        final(out)@ == old(out)@ + bars(n as nat),
{
    let mut i: usize = 0;
    while i < n
        invariant
            0 <= i <= n,
            out@ == old(out)@ + bars(i as nat),
        decreases n - i,
    {
        out.push('\u{2500}');
        proof {
            assert(old(out)@ + bars(i as nat + 1) =~= (old(out)@ + bars(i as nat)).push(
                '\u{2500}',
            ));
        }
        i = i + 1;
    }
}

/// Draw a box around a non-empty text, each line padded with spaces to the
/// width of the longest line.
#[verifier::loop_isolation(false)]
#[verifier::rlimit(30)]
pub fn add_box(s: &str) -> (r: String)
    requires
        s@.len() > 0,
    ensures
        r@ == add_box_spec(s@),
{
    let chars = to_chars(s);
    let lines = split_lines(&chars);
    let ghost lv = str_lines(s@);
    let n = lines.len();
    proof {
        crate::text::lemma_first_char(s@, '\n');
        let k = crate::text::first_char(s@, '\n');
        if k == s@.len() {
            assert(crate::text::raw_split(s@) == seq![s@]);
        } else {
            crate::text::lemma_raw_split_nonempty(s@.skip(k + 1));
        }
        assert(lv.len() > 0);
        lemma_max_line_len(lv);
    }
    // the width of the longest line
    let mut w: usize = 0;
    let mut i: usize = 0;
    let ghost mx = max_line_len(lv);
    while i < n
        invariant
            0 <= i <= n,
            w == if i == 0 {
                0int
            } else {
                max_line_len(lv.take(i as int))
            },
        decreases n - i,
    {
        let len = lines[i].len();
        proof {
            assert(lv.take(i + 1).drop_last() =~= lv.take(i as int));
            assert(lv.take(i + 1).last() == lv[i as int]);
            if i > 0 {
                lemma_max_line_len(lv.take(i as int));
            }
        }
        if len > w {
            w = len;
        }
        i = i + 1;
    }
    proof {
        assert(lv.take(n as int) =~= lv);
        assert(w == mx);
    }
    let mut out: Vec<char> = Vec::new();
    out.push('\u{250c}');
    push_bars(&mut out, w);
    out.push('\u{2510}');
    out.push('\n');
    let ghost header = seq!['\u{250c}'] + bars(mx as nat) + seq!['\u{2510}', '\n'];
    proof {
        assert(out@ =~= header);
        assert(out@ =~= header + boxed_lines(lv.take(0), mx));
    }
    let mut j: usize = 0;
    while j < n
        invariant
            0 <= j <= n,
            out@ == header + boxed_lines(lv.take(j as int), mx),
        decreases n - j,
    {
        let line = &lines[j];
        proof {
            assert(line@ == lv[j as int]);
            assert(line@.len() <= mx);
        }
        out.push('\u{2502}');
        push_range(&mut out, line, 0, line.len());
        let pad = w - line.len();
        push_spaces(&mut out, pad);
        out.push('\u{2502}');
        out.push('\n');
        proof {
            assert(line@.subrange(0, line@.len() as int) =~= line@);
            assert(lv.take(j + 1).drop_last() =~= lv.take(j as int));
            assert(lv.take(j + 1).last() == lv[j as int]);
            assert(out@ =~= header + boxed_lines(lv.take(j as int), mx) + boxed_line(
                lv[j as int],
                mx,
            ));
        }
        j = j + 1;
    }
    out.push('\u{2514}');
    push_bars(&mut out, w);
    out.push('\u{2518}');
    proof {
        assert(lv.take(n as int) =~= lv);
        assert(out@ =~= add_box_spec(s@));
    }
    string_from_chars(&out)
}

} // verus!
