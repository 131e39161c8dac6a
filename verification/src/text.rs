//! Character-level text model: whitespace, trimming, line splitting and
//! first-occurrence search, with executable counterparts proved against the
//! specification functions.

use vstd::prelude::*;
use vstd::string::StrSliceExecFns;

verus! {

/// The whitespace characters this library recognizes: the set
/// `char::is_whitespace` recognizes, the characters with the Unicode
/// White_Space property.
pub open spec fn is_space(c: char) -> bool {
    ||| c == ' '
    ||| c == '\t'
    ||| c == '\n'
    ||| c == '\u{b}'
    ||| c == '\u{c}'
    ||| c == '\r'
    ||| c == '\u{85}'
    ||| c == '\u{a0}'
    ||| c == '\u{1680}'
    ||| ('\u{2000}' <= c && c <= '\u{200a}')
    ||| c == '\u{2028}'
    ||| c == '\u{2029}'
    ||| c == '\u{202f}'
    ||| c == '\u{205f}'
    ||| c == '\u{3000}'
}

/// Number of leading whitespace characters of a line.
pub open spec fn indent_of(s: Seq<char>) -> int
    decreases s.len(),
{
    if s.len() == 0 || !is_space(s[0]) {
        0
    } else {
        1 + indent_of(s.drop_first())
    }
}

/// Number of trailing whitespace characters.
pub open spec fn trailing_ws(s: Seq<char>) -> int
    decreases s.len(),
{
    if s.len() == 0 || !is_space(s.last()) {
        0
    } else {
        1 + trailing_ws(s.drop_last())
    }
}

/// A line is blank when every character is whitespace.
pub open spec fn is_blank(s: Seq<char>) -> bool {
    forall|i: int| 0 <= i < s.len() ==> is_space(#[trigger] s[i])
}

pub open spec fn trim_start_spec(s: Seq<char>) -> Seq<char> {
    s.skip(indent_of(s))
}

pub open spec fn trim_end_spec(s: Seq<char>) -> Seq<char> {
    s.take(s.len() - trailing_ws(s))
}

/// Whitespace trimmed from both ends, as `str::trim` does.
pub open spec fn trim_spec(s: Seq<char>) -> Seq<char> {
    trim_end_spec(trim_start_spec(s))
}

/// Index of the first occurrence of `c`, or `s.len()` when `c` does not occur.
pub open spec fn first_char(s: Seq<char>, c: char) -> int
    decreases s.len(),
{
    if s.len() == 0 {
        0
    } else if s[0] == c {
        0
    } else {
        1 + first_char(s.drop_first(), c)
    }
}

pub proof fn lemma_indent_of(s: Seq<char>)
    ensures
        0 <= indent_of(s) <= s.len(),
        forall|j: int| 0 <= j < indent_of(s) ==> is_space(#[trigger] s[j]),
        indent_of(s) < s.len() ==> !is_space(s[indent_of(s)]),
    decreases s.len(),
{
    if s.len() != 0 && is_space(s[0]) {
        lemma_indent_of(s.drop_first());
        assert forall|j: int| 0 <= j < indent_of(s) implies is_space(#[trigger] s[j]) by {
            if j > 0 {
                assert(s[j] == s.drop_first()[j - 1]);
            }
        }
    }
}

/// `indent_of` is determined by any index `m` that splits the line into an
/// all-whitespace head and a part not beginning with whitespace.
pub proof fn lemma_indent_of_at(s: Seq<char>, m: int)
    requires
        0 <= m <= s.len(),
        forall|j: int| 0 <= j < m ==> is_space(#[trigger] s[j]),
        m < s.len() ==> !is_space(s[m]),
    ensures
        indent_of(s) == m,
    decreases s.len(),
{
    if s.len() != 0 && is_space(s[0]) {
        lemma_indent_of_at(s.drop_first(), m - 1);
    }
}

pub proof fn lemma_trailing_ws(s: Seq<char>)
    ensures
        0 <= trailing_ws(s) <= s.len(),
        forall|j: int| s.len() - trailing_ws(s) <= j < s.len() ==> is_space(#[trigger] s[j]),
        trailing_ws(s) < s.len() ==> !is_space(s[s.len() - trailing_ws(s) - 1]),
    decreases s.len(),
{
    if s.len() != 0 && is_space(s.last()) {
        lemma_trailing_ws(s.drop_last());
        assert forall|j: int| s.len() - trailing_ws(s) <= j < s.len() implies is_space(
            #[trigger] s[j],
        ) by {
            if j < s.len() - 1 {
                assert(s[j] == s.drop_last()[j]);
            }
        }
    }
}

/// `trailing_ws` is determined by any index `m` that splits the line into a
/// part not ending in whitespace and an all-whitespace tail.
pub proof fn lemma_trailing_ws_at(s: Seq<char>, m: int)
    requires
        0 <= m <= s.len(),
        forall|j: int| m <= j < s.len() ==> is_space(#[trigger] s[j]),
        m > 0 ==> !is_space(s[m - 1]),
    ensures
        trailing_ws(s) == s.len() - m,
    decreases s.len(),
{
    if m < s.len() {
        lemma_trailing_ws_at(s.drop_last(), m);
    }
}

pub proof fn lemma_first_char(s: Seq<char>, c: char)
    ensures
        0 <= first_char(s, c) <= s.len(),
        forall|j: int| 0 <= j < first_char(s, c) ==> #[trigger] s[j] != c,
        first_char(s, c) < s.len() ==> s[first_char(s, c)] == c,
    decreases s.len(),
{
    if s.len() != 0 && s[0] != c {
        lemma_first_char(s.drop_first(), c);
        assert forall|j: int| 0 <= j < first_char(s, c) implies #[trigger] s[j] != c by {
            if j > 0 {
                assert(s[j] == s.drop_first()[j - 1]);
            }
        }
    }
}

pub proof fn lemma_first_char_at(s: Seq<char>, c: char, k: int)
    requires
        0 <= k <= s.len(),
        forall|j: int| 0 <= j < k ==> #[trigger] s[j] != c,
        k < s.len() ==> s[k] == c,
    ensures
        first_char(s, c) == k,
    decreases s.len(),
{
    if s.len() != 0 && s[0] != c {
        lemma_first_char_at(s.drop_first(), c, k - 1);
    }
}

/// Trimming never lengthens a line.
pub proof fn lemma_trim_lens(s: Seq<char>)
    ensures
        trim_end_spec(s).len() <= s.len(),
        trim_start_spec(s).len() <= s.len(),
        trim_spec(s).len() <= s.len(),
{
    lemma_indent_of(s);
    lemma_trailing_ws(s);
    lemma_trailing_ws(trim_start_spec(s));
}

/// Every piece of a whitespace-only text is itself whitespace-only.
pub proof fn lemma_raw_split_blank(t: Seq<char>)
    requires
        is_blank(t),
    ensures
        forall|i: int| 0 <= i < raw_split(t).len() ==> is_blank(#[trigger] raw_split(t)[i]),
    decreases t.len(),
{
    let k = first_char(t, '\n');
    lemma_first_char(t, '\n');
    if k == t.len() {
    } else {
        let rest = t.skip(k + 1);
        assert(forall|j: int| 0 <= j < rest.len() ==> rest[j] == t[j + k + 1]);
        assert(is_blank(rest));
        lemma_raw_split_blank(rest);
        assert forall|i: int| 0 <= i < raw_split(t).len() implies is_blank(
            #[trigger] raw_split(t)[i],
        ) by {
            if i == 0 {
                assert(raw_split(t)[0] == t.take(k));
                assert(forall|j: int| 0 <= j < k ==> t.take(k)[j] == t[j]);
            } else {
                assert(raw_split(t)[i] == raw_split(rest)[i - 1]);
            }
        }
    }
}

/// The raw pieces of a text split at every line feed; one more piece than
/// there are line feeds.
pub open spec fn raw_split(t: Seq<char>) -> Seq<Seq<char>>
    decreases t.len(),
    via raw_split_dec
{
    let k = first_char(t, '\n');
    if k == t.len() {
        seq![t]
    } else {
        seq![t.take(k)] + raw_split(t.skip(k + 1))
    }
}

#[via_fn]
proof fn raw_split_dec(t: Seq<char>) {
    lemma_first_char(t, '\n');
}

pub proof fn lemma_raw_split_nonempty(t: Seq<char>)
    ensures
        raw_split(t).len() >= 1,
{
    lemma_first_char(t, '\n');
}

/// The pieces of a text split at every occurrence of a character; one more
/// piece than there are occurrences.
pub open spec fn split_at_char(t: Seq<char>, c: char) -> Seq<Seq<char>>
    decreases t.len(),
    via split_at_char_dec
{
    let k = first_char(t, c);
    if k == t.len() {
        seq![t]
    } else {
        seq![t.take(k)] + split_at_char(t.skip(k + 1), c)
    }
}

#[via_fn]
proof fn split_at_char_dec(t: Seq<char>, c: char) {
    lemma_first_char(t, c);
}

/// Split a text at every occurrence of a character.
pub fn split_at(text: &Vec<char>, c: char) -> (r: Vec<Vec<char>>)
    ensures
        lines_view(r@) == split_at_char(text@, c),
{
    let mut res: Vec<Vec<char>> = Vec::new();
    let mut pos: usize = 0;
    let mut done: bool = false;
    proof {
        assert(text@.skip(0) =~= text@);
    }
    while !done
        invariant
            0 <= pos <= text@.len(),
            !done ==> split_at_char(text@, c) =~~= lines_view(res@) + split_at_char(
                text@.skip(pos as int),
                c,
            ),
            done ==> split_at_char(text@, c) =~~= lines_view(res@),
        decreases text@.len() - pos + (if done { 0int } else { 1int }),
    {
        let ghost rest = text@.skip(pos as int);
        let k = find_char_from(text, pos, c);
        proof {
            assert(forall|j: int| 0 <= j < rest.len() ==> rest[j] == text@[j + pos]);
            lemma_first_char_at(rest, c, k - pos);
        }
        let piece = copy_range(text, pos, k);
        res.push(piece);
        proof {
            assert(lines_view(res@) =~~= lines_view(res@.drop_last()).push(piece@));
        }
        if k == text.len() {
            proof {
                assert(rest =~= text@.subrange(pos as int, k as int));
                assert(split_at_char(rest, c) == seq![rest]);
            }
            done = true;
        } else {
            proof {
                assert(rest.take(k - pos) =~= text@.subrange(pos as int, k as int));
                assert(rest.skip(k - pos + 1) =~= text@.skip(k + 1));
                assert(split_at_char(rest, c) == seq![rest.take(k - pos)] + split_at_char(
                    text@.skip(k + 1),
                    c,
                ));
            }
            pos = k + 1;
        }
    }
    res
}

/// Number of leading whitespace characters of a string slice.
pub fn get_indent(s: &str) -> (n: usize)
    ensures
        n == indent_of(s@),
{
    let len = s.unicode_len();
    let mut i: usize = 0;
    proof {
        assert(s@.skip(0) =~= s@);
    }
    while i < len && is_space_char(s.get_char(i))
        invariant
            0 <= i <= len,
            len == s@.len(),
            indent_of(s@) == i + indent_of(s@.skip(i as int)),
        decreases len - i,
    {
        proof {
            assert(s@.skip(i as int).drop_first() =~= s@.skip(i as int + 1));
        }
        i = i + 1;
    }
    proof {
        if i < s@.len() {
            assert(s@.skip(i as int)[0] == s@[i as int]);
        }
        assert(indent_of(s@.skip(i as int)) == 0);
    }
    i
}

/// One trailing carriage return removed, as `str::lines` does on lines that
/// were terminated by a line feed.
pub open spec fn strip_cr(l: Seq<char>) -> Seq<char> {
    if l.len() > 0 && l.last() == '\r' {
        l.drop_last()
    } else {
        l
    }
}

/// The physical lines of a text, with the semantics of `str::lines`: pieces
/// are split at every line feed, a final empty piece (from a trailing line
/// feed, or from empty text) is not a line, and a carriage return preceding a
/// line feed belongs to the terminator, not to the line.
pub open spec fn str_lines(t: Seq<char>) -> Seq<Seq<char>> {
    let raw = raw_split(t);
    let m: int = if raw.last().len() == 0 {
        raw.len() - 1
    } else {
        raw.len() as int
    };
    Seq::new(m as nat, |i: int| if i < raw.len() - 1 {
        strip_cr(raw[i])
    } else {
        raw[i]
    })
}

/// The sequence of character sequences a vector of lines stands for.
pub open spec fn lines_view(v: Seq<Vec<char>>) -> Seq<Seq<char>> {
    Seq::new(v.len(), |i: int| v[i]@)
}

/// Strict lexicographic order on character sequences, by code point; the
/// order `str` keys of a sorted map are iterated in.
pub open spec fn seq_lt(a: Seq<char>, b: Seq<char>) -> bool
    decreases a.len(),
{
    if b.len() == 0 {
        false
    } else if a.len() == 0 {
        true
    } else if a[0] == b[0] {
        seq_lt(a.drop_first(), b.drop_first())
    } else {
        a[0] < b[0]
    }
}

pub proof fn lemma_seq_lt_irrefl(a: Seq<char>)
    ensures
        !seq_lt(a, a),
    decreases a.len(),
{
    if a.len() > 0 {
        lemma_seq_lt_irrefl(a.drop_first());
    }
}

pub proof fn lemma_seq_lt_asym(a: Seq<char>, b: Seq<char>)
    ensures
        !(seq_lt(a, b) && seq_lt(b, a)),
    decreases a.len(),
{
    if a.len() > 0 && b.len() > 0 && a[0] == b[0] {
        lemma_seq_lt_asym(a.drop_first(), b.drop_first());
    }
}

pub proof fn lemma_seq_lt_trans(a: Seq<char>, b: Seq<char>, c: Seq<char>)
    requires
        seq_lt(a, b),
        seq_lt(b, c),
    ensures
        seq_lt(a, c),
    decreases a.len(),
{
    if a.len() > 0 && b.len() > 0 && c.len() > 0 && a[0] == b[0] && b[0] == c[0] {
        lemma_seq_lt_trans(a.drop_first(), b.drop_first(), c.drop_first());
    }
}

/// The order is total: distinct sequences compare one way or the other.
pub proof fn lemma_seq_lt_connected(a: Seq<char>, b: Seq<char>)
    ensures
        a != b ==> seq_lt(a, b) || seq_lt(b, a),
    decreases a.len(),
{
    if a.len() == 0 && b.len() == 0 {
        assert(a =~= b);
    } else if a.len() > 0 && b.len() > 0 && a[0] == b[0] {
        lemma_seq_lt_connected(a.drop_first(), b.drop_first());
        if a.drop_first() == b.drop_first() {
            assert(a.drop_first().len() == a.len() - 1);
            assert(b.drop_first().len() == b.len() - 1);
            assert forall|i: int| 0 <= i < a.len() implies a[i] == b[i] by {
                if i > 0 {
                    assert(a.drop_first()[i - 1] == b.drop_first()[i - 1]);
                    assert(a.drop_first()[i - 1] == a[i]);
                    assert(b.drop_first()[i - 1] == b[i]);
                }
            }
            assert(a =~= b);
        }
    }
}

/// What a three-way comparison of two keys yielded.
pub enum Cmp {
    Lt,
    Eq,
    Gt,
}

/// A comparison decided at the first index where two sequences differ, or by
/// length when one is a prefix of the other.
pub proof fn lemma_seq_lt_at(a: Seq<char>, b: Seq<char>, i: int)
    requires
        0 <= i <= a.len(),
        i <= b.len(),
        forall|j: int| 0 <= j < i ==> a[j] == b[j],
    ensures
        (i < a.len() && i < b.len() && a[i] < b[i]) ==> seq_lt(a, b),
        (i == a.len() && i < b.len()) ==> seq_lt(a, b),
        (i == a.len() && i == b.len()) ==> a == b,
    decreases i,
{
    if i == 0 {
        if i == a.len() && i == b.len() {
            assert(a =~= b);
        }
    } else {
        let ad = a.drop_first();
        let bd = b.drop_first();
        assert forall|j: int| 0 <= j < i - 1 implies ad[j] == bd[j] by {
            assert(ad[j] == a[j + 1]);
            assert(bd[j] == b[j + 1]);
        }
        lemma_seq_lt_at(ad, bd, i - 1);
        if i < a.len() && i < b.len() {
            assert(ad[i - 1] == a[i]);
            assert(bd[i - 1] == b[i]);
        }
        if i == a.len() && i == b.len() && ad == bd {
            assert(a =~= b);
        }
    }
}

/// Three-way lexicographic comparison of two string slices, by code point.
pub fn str_cmp(a: &str, b: &str) -> (c: Cmp)
    ensures
        c is Lt <==> seq_lt(a@, b@),
        c is Eq <==> a@ == b@,
        c is Gt <==> seq_lt(b@, a@),
{
    let la = a.unicode_len();
    let lb = b.unicode_len();
    let n = if la < lb {
        la
    } else {
        lb
    };
    let mut i: usize = 0;
    proof {
        lemma_seq_lt_irrefl(a@);
        lemma_seq_lt_asym(a@, b@);
    }
    while i < n
        invariant
            0 <= i <= n,
            n == if la < lb { la } else { lb },
            la == a@.len(),
            lb == b@.len(),
            forall|j: int| 0 <= j < i ==> a@[j] == b@[j],
            !(seq_lt(a@, b@) && seq_lt(b@, a@)),
            !seq_lt(a@, a@),
        decreases n - i,
    {
        let ca = a.get_char(i);
        let cb = b.get_char(i);
        if ca != cb {
            proof {
                lemma_seq_lt_at(a@, b@, i as int);
                lemma_seq_lt_at(b@, a@, i as int);
            }
            if ca < cb {
                return Cmp::Lt;
            } else {
                return Cmp::Gt;
            }
        }
        i = i + 1;
    }
    proof {
        lemma_seq_lt_at(a@, b@, i as int);
        lemma_seq_lt_at(b@, a@, i as int);
    }
    if la == lb {
        Cmp::Eq
    } else if la < lb {
        Cmp::Lt
    } else {
        Cmp::Gt
    }
}

pub fn is_space_char(c: char) -> (b: bool)
    ensures
        b == is_space(c),
{
    c == ' ' || c == '\t' || c == '\n' || c == '\u{b}' || c == '\u{c}' || c == '\r'
        || c == '\u{85}' || c == '\u{a0}' || c == '\u{1680}' || ('\u{2000}' <= c && c
        <= '\u{200a}') || c == '\u{2028}' || c == '\u{2029}' || c == '\u{202f}' || c
        == '\u{205f}' || c == '\u{3000}'
}

pub fn line_indent(line: &Vec<char>) -> (n: usize)
    ensures
        n == indent_of(line@),
{
    let mut i: usize = 0;
    proof {
        assert(line@.skip(0) =~= line@);
    }
    while i < line.len() && is_space_char(line[i])
        invariant
            0 <= i <= line@.len(),
            indent_of(line@) == i + indent_of(line@.skip(i as int)),
        decreases line@.len() - i,
    {
        proof {
            assert(line@.skip(i as int).drop_first() =~= line@.skip(i as int + 1));
        }
        i = i + 1;
    }
    proof {
        if i < line@.len() {
            assert(line@.skip(i as int)[0] == line@[i as int]);
        }
        assert(indent_of(line@.skip(i as int)) == 0);
    }
    i
}

pub fn line_blank(line: &Vec<char>) -> (b: bool)
    ensures
        b == is_blank(line@),
{
    let mut i: usize = 0;
    while i < line.len()
        invariant
            0 <= i <= line@.len(),
            forall|j: int| 0 <= j < i ==> is_space(#[trigger] line@[j]),
        decreases line@.len() - i,
    {
        if !is_space_char(line[i]) {
            return false;
        }
        i = i + 1;
    }
    true
}

/// First occurrence of `c` in `line` at or after `from`, or the length when
/// `c` does not occur there.
pub fn find_char_from(line: &Vec<char>, from: usize, c: char) -> (k: usize)
    requires
        from <= line@.len(),
    ensures
        from as int + first_char(line@.skip(from as int), c) == k,
        from <= k <= line@.len(),
        forall|j: int| from <= j < k ==> #[trigger] line@[j] != c,
        k < line@.len() ==> line@[k as int] == c,
{
    let mut i: usize = from;
    while i < line.len() && line[i] != c
        invariant
            from <= i <= line@.len(),
            forall|j: int| from <= j < i ==> #[trigger] line@[j] != c,
        decreases line@.len() - i,
    {
        i = i + 1;
    }
    proof {
        let s = line@.skip(from as int);
        assert(forall|j: int| 0 <= j < i - from ==> s[j] == line@[j + from]);
        lemma_first_char_at(s, c, i - from);
    }
    i
}

/// The bounds of the trimmed middle of a line: `line@.subrange(r.0, r.1)` is
/// the line with surrounding whitespace removed.
pub fn trim_bounds(line: &Vec<char>) -> (r: (usize, usize))
    ensures
        0 <= r.0 <= r.1 <= line@.len(),
        trim_spec(line@) == line@.subrange(r.0 as int, r.1 as int),
{
    let s = line_indent(line);
    proof {
        lemma_indent_of(line@);
    }
    let mut e: usize = line.len();
    while e > s && is_space_char(line[e - 1])
        invariant
            s <= e <= line@.len(),
            forall|j: int| e <= j < line@.len() ==> is_space(#[trigger] line@[j]),
        decreases e,
    {
        e = e - 1;
    }
    proof {
        let t = trim_start_spec(line@);
        assert(t =~= line@.skip(s as int));
        assert(forall|j: int| 0 <= j < t.len() ==> t[j] == line@[j + s]);
        lemma_trailing_ws_at(t, e - s);
        assert(trim_spec(line@) =~= line@.subrange(s as int, e as int));
    }
    (s, e)
}

/// The length that remains when trailing whitespace is removed:
/// `line@.take(e)` is `trim_end_spec(line@)`.
pub fn trim_end_bound(line: &Vec<char>) -> (e: usize)
    ensures
        0 <= e <= line@.len(),
        trim_end_spec(line@) == line@.take(e as int),
{
    let mut e: usize = line.len();
    while e > 0 && is_space_char(line[e - 1])
        invariant
            0 <= e <= line@.len(),
            forall|j: int| e <= j < line@.len() ==> is_space(#[trigger] line@[j]),
        decreases e,
    {
        e = e - 1;
    }
    proof {
        lemma_trailing_ws_at(line@, e as int);
    }
    e
}

/// Append `src[from..to]` to `dst`.
pub fn push_range(dst: &mut Vec<char>, src: &Vec<char>, from: usize, to: usize)
    requires
        from <= to <= src@.len(),
    ensures
        final(dst)@ == old(dst)@ + src@.subrange(from as int, to as int),
{
    let mut i: usize = from;
    while i < to
        invariant
            from <= i <= to <= src@.len(),
            dst@ == old(dst)@ + src@.subrange(from as int, i as int),
        decreases to - i,
    {
        dst.push(src[i]);
        proof {
            assert(old(dst)@ + src@.subrange(from as int, i + 1) =~= (old(dst)@ + src@.subrange(
                from as int,
                i as int,
            )).push(src@[i as int]));
        }
        i = i + 1;
    }
    proof {
        assert(dst@ =~= old(dst)@ + src@.subrange(from as int, to as int));
    }
}

/// A fresh copy of `src[from..to]`.
pub fn copy_range(src: &Vec<char>, from: usize, to: usize) -> (r: Vec<char>)
    requires
        from <= to <= src@.len(),
    ensures
        r@ == src@.subrange(from as int, to as int),
{
    let mut r: Vec<char> = Vec::new();
    push_range(&mut r, src, from, to);
    proof {
        assert(r@ =~= src@.subrange(from as int, to as int));
    }
    r
}

/// Relies on `String: FromIterator<char>`: collecting characters produces the
/// string whose characters are exactly the collected ones, in order.
#[verifier::external_body]
pub fn string_from_chars(chars: &Vec<char>) -> (r: String)
    ensures
        r@ == chars@,
{
    chars.iter().collect()
}

/// The characters of a string slice, gathered one by one.
pub fn to_chars(s: &str) -> (r: Vec<char>)
    ensures
        r@ == s@,
{
    let n = s.unicode_len();
    let mut r: Vec<char> = Vec::new();
    let mut i: usize = 0;
    while i < n
        invariant
            0 <= i <= n == s@.len(),
            r@ == s@.take(i as int),
        decreases n - i,
    {
        let c = s.get_char(i);
        r.push(c);
        proof {
            assert(s@.take(i + 1) =~= s@.take(i as int).push(s@[i as int]));
        }
        i = i + 1;
    }
    proof {
        assert(s@.take(n as int) =~= s@);
    }
    r
}

/// Unfolding of `str_lines` at a text whose first line is terminated: the
/// first line, a carriage return shed, followed by the lines of the rest.
pub proof fn lemma_str_lines_step(t: Seq<char>)
    requires
        first_char(t, '\n') < t.len(),
    ensures
        str_lines(t) =~~= seq![strip_cr(t.take(first_char(t, '\n')))] + str_lines(
            t.skip(first_char(t, '\n') + 1),
        ),
{
    let k = first_char(t, '\n');
    lemma_first_char(t, '\n');
    let rest = t.skip(k + 1);
    lemma_raw_split_nonempty(rest);
    assert(raw_split(t) == seq![t.take(k)] + raw_split(rest));
    assert(raw_split(t).last() == raw_split(rest).last());
    assert forall|i: int| 1 <= i < str_lines(t).len() implies str_lines(t)[i] == str_lines(rest)[i
        - 1] by {
        assert(raw_split(t)[i] == raw_split(rest)[i - 1]);
    }
}

/// `str_lines` of a text without a line feed: no lines when the text is
/// empty, otherwise the text itself as the only line.
pub proof fn lemma_str_lines_last(t: Seq<char>)
    requires
        first_char(t, '\n') == t.len(),
    ensures
        t.len() == 0 ==> str_lines(t) =~~= Seq::<Seq<char>>::empty(),
        t.len() > 0 ==> str_lines(t) =~~= seq![t],
{
    lemma_first_char(t, '\n');
    assert(raw_split(t) == seq![t]);
}

/// Split a text into its physical lines, as `str_lines` describes.
pub fn split_lines(text: &Vec<char>) -> (r: Vec<Vec<char>>)
    ensures
        lines_view(r@) == str_lines(text@),
{
    let mut res: Vec<Vec<char>> = Vec::new();
    let mut pos: usize = 0;
    let mut done: bool = false;
    proof {
        assert(text@.skip(0) =~= text@);
    }
    while !done
        invariant
            0 <= pos <= text@.len(),
            !done ==> str_lines(text@) =~~= lines_view(res@) + str_lines(text@.skip(pos as int)),
            done ==> str_lines(text@) =~~= lines_view(res@),
        decreases text@.len() - pos + (if done { 0int } else { 1int }),
    {
        let ghost rest = text@.skip(pos as int);
        let k = find_char_from(text, pos, '\n');
        proof {
            assert(forall|j: int| 0 <= j < rest.len() ==> rest[j] == text@[j + pos]);
            lemma_first_char_at(rest, '\n', k - pos);
        }
        let mut line = copy_range(text, pos, k);
        if k == text.len() {
            proof {
                assert(rest =~= text@.subrange(pos as int, k as int));
                lemma_str_lines_last(rest);
            }
            if line.len() > 0 {
                res.push(line);
                proof {
                    assert(lines_view(res@) =~~= lines_view(res@.drop_last()).push(rest));
                }
            }
            done = true;
        } else {
            // The line was terminated by a line feed, so one trailing
            // carriage return belongs to the terminator.
            if line.len() > 0 && line[line.len() - 1] == '\r' {
                let m = line.len() - 1;
                line.truncate(m);
            }
            proof {
                lemma_str_lines_step(rest);
                assert(rest.take(k - pos) =~= text@.subrange(pos as int, k as int));
                assert(line@ == strip_cr(rest.take(k - pos)));
                assert(rest.skip(k - pos + 1) =~= text@.skip(k + 1));
            }
            res.push(line);
            proof {
                assert(lines_view(res@) =~~= lines_view(res@.drop_last()).push(line@));
                assert(str_lines(text@) =~~= lines_view(res@) + str_lines(text@.skip(k + 1)));
            }
            pos = k + 1;
        }
    }
    proof {
        assert(lines_view(res@) =~~= str_lines(text@));
    }
    res
}

} // verus!
