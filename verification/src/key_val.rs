//! The line parser: raw text to an ordered sequence of key/value pairs.
//!
//! A single left-to-right pass over the physical lines keeps two pieces of
//! state, the completed pairs and a buffer for a key that spans several
//! lines. Each line is classified by four axes: blank or not, key buffer
//! empty or not, containing a separator or not, indented beyond the baseline
//! or not. The specification functions below state that classification
//! exactly, and the executable parser is proved to follow it.

use vstd::prelude::*;
use vstd::string::StringExecFns;
use crate::text::seq_lt;
use crate::text::str_cmp;
use crate::text::Cmp;
use crate::text::lemma_seq_lt_trans;
use crate::text::lemma_seq_lt_asym;
use crate::text::lemma_seq_lt_irrefl;
use crate::text::lemma_seq_lt_connected;
use crate::text::copy_range;
use crate::text::find_char_from;
use crate::text::first_char;
use crate::text::indent_of;
use crate::text::is_blank;
use crate::text::line_blank;
use crate::text::line_indent;
use crate::text::push_range;
use crate::text::split_lines;
use crate::text::str_lines;
use crate::text::string_from_chars;
use crate::text::to_chars;
use crate::text::trim_bounds;
use crate::text::trim_end_bound;
use crate::text::trim_end_spec;
use crate::text::trim_spec;
use crate::text::lemma_first_char;
use crate::text::raw_split;
use crate::text::lemma_trailing_ws_at;
use crate::text::is_space;
use crate::text::is_space_char;

verus! {

broadcast use vstd::std_specs::vec::group_vec_axioms;

/// One parsed key/value pair; both parts carry no surrounding whitespace
/// when built by `KeyVal::new` or by the parser.
#[derive(Clone, Debug, PartialEq, Eq)]
pub struct KeyVal {
    pub key: String,
    pub value: String,
}

/// An ordered sequence of pairs. It is a monoid under concatenation, with
/// the empty sequence as identity.
pub type KeyVals = Vec<KeyVal>;

/// The mathematical stand-in for one pair: its key and value characters.
pub type PairV = (Seq<char>, Seq<char>);

impl View for KeyVal {
    type V = PairV;

    open spec fn view(&self) -> PairV {
        (self.key@, self.value@)
    }
}

/// The pair sequence a vector of pairs stands for.
pub open spec fn kvs_view(kvs: Seq<KeyVal>) -> Seq<PairV> {
    Seq::new(kvs.len(), |i: int| kvs[i]@)
}

/// The parser state: completed pairs and the pending multi-line key.
#[verifier::ext_equal]
pub struct LineState {
    pub pairs: Seq<PairV>,
    pub key_buf: Seq<char>,
}

/// A line absorbed into the pending key: appended after a line feed, its
/// trailing whitespace shed.
pub open spec fn continue_key(key_buf: Seq<char>, line: Seq<char>) -> Seq<char> {
    key_buf + seq!['\n'] + trim_end_spec(line)
}

/// A line absorbed into the value of the last completed pair.
pub open spec fn continue_value(pairs: Seq<PairV>, line: Seq<char>) -> Seq<PairV> {
    if pairs.len() == 0 {
        pairs
    } else {
        let last = pairs.last();
        pairs.update(pairs.len() - 1, (last.0, last.1 + seq!['\n'] + trim_end_spec(line)))
    }
}

/// A line with a separator completes a pair: the part left of the first
/// separator joins the pending key, the part right of it starts the value,
/// and both are trimmed.
pub open spec fn emit_pair(st: LineState, line: Seq<char>) -> LineState {
    let k = first_char(line, '=');
    let key = trim_spec(continue_key(st.key_buf, line.take(k)));
    let value = trim_spec(line.skip(k + 1));
    LineState { pairs: st.pairs.push((key, value)), key_buf: Seq::empty() }
}

/// The classification table: how one line changes the parser state, the
/// first matching rule winning.
pub open spec fn step_line(st: LineState, line: Seq<char>, baseline: int) -> LineState {
    let has_sep = first_char(line, '=') < line.len();
    if is_blank(line) {
        if st.key_buf.len() > 0 {
            LineState { pairs: st.pairs, key_buf: continue_key(st.key_buf, line) }
        } else {
            LineState { pairs: continue_value(st.pairs, line), key_buf: st.key_buf }
        }
    } else if st.key_buf.len() > 0 {
        if has_sep {
            emit_pair(st, line)
        } else {
            LineState { pairs: st.pairs, key_buf: continue_key(st.key_buf, line) }
        }
    } else if indent_of(line) > baseline {
        LineState { pairs: continue_value(st.pairs, line), key_buf: st.key_buf }
    } else if has_sep {
        emit_pair(st, line)
    } else {
        LineState { pairs: st.pairs, key_buf: continue_key(st.key_buf, line) }
    }
}

/// The parser state after the first `n` lines.
pub open spec fn run_lines(lines: Seq<Seq<char>>, baseline: int, n: int) -> LineState
    decreases n,
{
    if n <= 0 {
        LineState { pairs: Seq::empty(), key_buf: Seq::empty() }
    } else {
        step_line(run_lines(lines, baseline, n - 1), lines[n - 1], baseline)
    }
}

/// Index of the first line that is not blank, or the number of lines.
pub open spec fn first_nonblank(lines: Seq<Seq<char>>) -> int
    decreases lines.len(),
{
    if lines.len() == 0 {
        0
    } else if !is_blank(lines[0]) {
        0
    } else {
        1 + first_nonblank(lines.drop_first())
    }
}

pub proof fn lemma_first_nonblank_bounds(lines: Seq<Seq<char>>)
    ensures
        0 <= first_nonblank(lines) <= lines.len(),
    decreases lines.len(),
{
    if lines.len() != 0 && is_blank(lines[0]) {
        lemma_first_nonblank_bounds(lines.drop_first());
    }
}

pub proof fn lemma_first_nonblank_at(lines: Seq<Seq<char>>, b: int)
    requires
        0 <= b <= lines.len(),
        forall|j: int| 0 <= j < b ==> is_blank(#[trigger] lines[j]),
        b < lines.len() ==> !is_blank(lines[b]),
    ensures
        first_nonblank(lines) == b,
    decreases lines.len(),
{
    if lines.len() != 0 && is_blank(lines[0]) {
        lemma_first_nonblank_at(lines.drop_first(), b - 1);
    }
}

/// The message of the only parse error: a key that never found its value.
pub open spec fn err_text(key: Seq<char>) -> Seq<char> {
    "No value found for key: "@ + key
}

/// Every completed value has its trailing whitespace shed at the end of the
/// pass.
pub open spec fn final_pairs(st: LineState) -> Seq<PairV> {
    Seq::new(st.pairs.len(), |i: int| (st.pairs[i].0, trim_end_spec(st.pairs[i].1)))
}

/// What parsing a text yields: its pairs, or the buffered key text of an
/// unterminated multi-line key. Leading blank lines are discarded; the
/// indentation of the first remaining line is the baseline; an empty rest
/// parses to the empty sequence.
pub open spec fn parse_spec(text: Seq<char>) -> Result<Seq<PairV>, Seq<char>> {
    let lines = str_lines(text);
    let b = first_nonblank(lines);
    if b >= lines.len() {
        Ok(Seq::empty())
    } else {
        let rest = lines.skip(b);
        let baseline = indent_of(rest[0]);
        let st = run_lines(rest, baseline, rest.len() as int);
        if st.key_buf.len() > 0 {
            Err(err_text(trim_spec(st.key_buf)))
        } else {
            Ok(final_pairs(st))
        }
    }
}

/// A state reached from a non-blank first line always holds a pending key or
/// at least one pair, so a continued value always has a pair to extend.
pub proof fn lemma_run_lines_populated(lines: Seq<Seq<char>>, baseline: int, n: int)
    requires
        1 <= n <= lines.len(),
        !is_blank(lines[0]),
        indent_of(lines[0]) <= baseline,
    ensures
        run_lines(lines, baseline, n).key_buf.len() > 0 || run_lines(
            lines,
            baseline,
            n,
        ).pairs.len() > 0,
    decreases n,
{
    if n > 1 {
        lemma_run_lines_populated(lines, baseline, n - 1);
    }
}

/// The working form of a pair under construction: both parts as characters.
pub open spec fn pairs_view(pairs: Seq<(Vec<char>, Vec<char>)>) -> Seq<PairV> {
    Seq::new(pairs.len(), |i: int| (pairs[i].0@, pairs[i].1@))
}

/// Trailing-whitespace bound of a prefix: `line@.take(e)` is
/// `trim_end_spec(line@.take(to))`.
fn trim_end_bound_to(line: &Vec<char>, to: usize) -> (e: usize)
    requires
        to <= line@.len(),
    ensures
        0 <= e <= to,
        trim_end_spec(line@.take(to as int)) == line@.take(e as int),
{
    let mut e: usize = to;
    while e > 0 && is_space_char(line[e - 1])
        invariant
            0 <= e <= to <= line@.len(),
            forall|j: int| e <= j < to ==> is_space(#[trigger] line@[j]),
        decreases e,
    {
        e = e - 1;
    }
    proof {
        let t = line@.take(to as int);
        lemma_trailing_ws_at(t, e as int);
        assert(t.take(e as int) =~= line@.take(e as int));
    }
    e
}

fn continue_key_buf(key_buf: &mut Vec<char>, line: &Vec<char>)
    ensures
        final(key_buf)@ == continue_key(old(key_buf)@, line@),
        final(key_buf)@.len() > 0,
{
    key_buf.push('\n');
    let e = trim_end_bound(line);
    push_range(key_buf, line, 0, e);
    proof {
        assert(line@.subrange(0, e as int) =~= line@.take(e as int));
        assert(key_buf@ =~= continue_key(old(key_buf)@, line@));
    }
}

fn continue_last_value(pairs: &mut Vec<(Vec<char>, Vec<char>)>, line: &Vec<char>)
    requires
        old(pairs)@.len() > 0,
    ensures
        pairs_view(final(pairs)@) == continue_value(pairs_view(old(pairs)@), line@),
        final(pairs)@.len() == old(pairs)@.len(),
{
    let mut p = pairs.pop().unwrap();
    p.1.push('\n');
    let e = trim_end_bound(line);
    push_range(&mut p.1, line, 0, e);
    pairs.push(p);
    proof {
        assert(line@.subrange(0, e as int) =~= line@.take(e as int));
        assert(pairs_view(pairs@) =~~= continue_value(pairs_view(old(pairs)@), line@));
    }
}

fn add_new_key_val(key_buf: &mut Vec<char>, line: &Vec<char>, pairs: &mut Vec<(Vec<char>, Vec<char>)>)
    requires
        first_char(line@, '=') < line@.len(),
    ensures
        ({
            let st = emit_pair(
                LineState { pairs: pairs_view(old(pairs)@), key_buf: old(key_buf)@ },
                line@,
            );
            pairs_view(final(pairs)@) == st.pairs && final(key_buf)@ == st.key_buf
        }),
{
    let n = line.len();
    let k = find_char_from(line, 0, '=');
    proof {
        lemma_first_char(line@, '=');
        assert(line@.skip(0) =~= line@);
        assert(k == first_char(line@, '='));
        assert(k < n);
    }
    // Join the left part, trailing whitespace shed, onto the pending key.
    key_buf.push('\n');
    let e = trim_end_bound_to(line, k);
    push_range(key_buf, line, 0, e);
    proof {
        assert(line@.subrange(0, e as int) =~= line@.take(e as int));
        assert(key_buf@ =~= continue_key(old(key_buf)@, line@.take(k as int)));
    }
    let kb = trim_bounds(key_buf);
    let key = copy_range(key_buf, kb.0, kb.1);
    // The right part, trimmed, starts the value.
    let ghost right = line@.skip(k + 1);
    let mut vs: usize = k + 1;
    while vs < line.len() && is_space_char(line[vs])
        invariant
            k + 1 <= vs <= line@.len(),
            forall|j: int| k + 1 <= j < vs ==> is_space(#[trigger] line@[j]),
        decreases line@.len() - vs,
    {
        vs = vs + 1;
    }
    let mut ve: usize = line.len();
    while ve > vs && is_space_char(line[ve - 1])
        invariant
            vs <= ve <= line@.len(),
            forall|j: int| ve <= j < line@.len() ==> is_space(#[trigger] line@[j]),
        decreases ve,
    {
        ve = ve - 1;
    }
    proof {
        assert(forall|j: int| 0 <= j < right.len() ==> right[j] == line@[j + k + 1]);
        crate::text::lemma_indent_of_at(right, vs - (k + 1));
        let t = crate::text::trim_start_spec(right);
        assert(t =~= line@.subrange(vs as int, line@.len() as int));
        lemma_trailing_ws_at(t, ve - vs);
        assert(trim_spec(right) =~= line@.subrange(vs as int, ve as int));
    }
    let value = copy_range(line, vs, ve);
    pairs.push((key, value));
    key_buf.clear();
    proof {
        let st = emit_pair(
            LineState { pairs: pairs_view(old(pairs)@), key_buf: old(key_buf)@ },
            line@,
        );
        assert(pairs_view(pairs@) =~~= st.pairs);
        assert(key_buf@ =~= st.key_buf);
    }
}

/// The concatenation of a sequence of pair vectors, in order.
pub open spec fn concat_kvs(items: Seq<Vec<KeyVal>>) -> Seq<KeyVal>
    decreases items.len(),
{
    if items.len() == 0 {
        Seq::empty()
    } else {
        concat_kvs(items.drop_last()) + items.last()@
    }
}

impl crate::monoid::Monoid for KeyVals {
    open spec fn valid(&self) -> bool {
        true
    }

    open spec fn is_empty_val(r: &Self) -> bool {
        r@.len() == 0
    }

    open spec fn is_merge_of(a: &Self, b: &Self, r: &Self) -> bool {
        r@ == a@ + b@
    }

    open spec fn is_aggregate_of(items: Seq<Self>, r: &Self) -> bool {
        r@ == concat_kvs(items)
    }

    proof fn lemma_aggregate_empty(r: &Self) {
        assert(r@ =~= Seq::<KeyVal>::empty());
    }

    proof fn lemma_aggregate_step(items: Seq<Self>, acc: &Self, x: &Self, r: &Self) {
        assert(items.push(*x).drop_last() =~= items);
        assert(items.push(*x).last() == *x);
        assert(concat_kvs(items.push(*x)) == concat_kvs(items) + x@);
    }

    fn empty() -> (r: Self) {
        Vec::new()
    }

    fn merge(self, other: Self) -> (r: Self) {
        let mut merged = self;
        let mut tail = other;
        merged.append(&mut tail);
        merged
    }

    fn aggregate(items: Vec<Self>) -> (r: Self) {
        let ghost orig = items@;
        let mut items = items;
        let mut acc: Vec<KeyVal> = Vec::new();
        let ghost mut done: Seq<KeyVals> = Seq::empty();
        proof {
            assert(acc@ =~= concat_kvs(done));
        }
        while items.len() > 0
            invariant
                acc@ == concat_kvs(done),
                orig == done + items@,
            decreases items@.len(),
        {
            let ghost pre = items@;
            let mut x = items.remove(0);
            let ghost xg = x;
            proof {
                assert(items@ =~= pre.drop_first());
            }
            acc.append(&mut x);
            proof {
                assert(done.push(xg).drop_last() =~= done);
                assert(done.push(xg).last() == xg);
                done = done.push(xg);
                assert(orig =~= done + items@);
            }
        }
        proof {
            assert(done =~= orig);
        }
        acc
    }
}

/// Pair sequences form a monoid under concatenation: the operation is
/// associative.
pub proof fn lemma_pairs_merge_assoc(x: Seq<KeyVal>, y: Seq<KeyVal>, z: Seq<KeyVal>)
    ensures
        x + (y + z) == (x + y) + z,
{
    assert(x + (y + z) =~= (x + y) + z);
}

/// The empty sequence is a two-sided identity for concatenation of pair
/// sequences.
pub proof fn lemma_pairs_merge_identity(x: Seq<KeyVal>)
    ensures
        Seq::<KeyVal>::empty() + x == x,
        x + Seq::<KeyVal>::empty() == x,
{
    assert(Seq::<KeyVal>::empty() + x =~= x);
    assert(x + Seq::<KeyVal>::empty() =~= x);
}

impl KeyVal {
    /// A pair from raw parts: both are trimmed of surrounding whitespace.
    pub fn new(key: String, value: String) -> (r: Self)
        ensures
            r.key@ == trim_spec(key@),
            r.value@ == trim_spec(value@),
    {
        let kc = to_chars(key.as_str());
        let kb = trim_bounds(&kc);
        let kt = copy_range(&kc, kb.0, kb.1);
        let vc = to_chars(value.as_str());
        let vb = trim_bounds(&vc);
        let vt = copy_range(&vc, vb.0, vb.1);
        KeyVal { key: string_from_chars(&kt), value: string_from_chars(&vt) }
    }

    /// Parse a text into its ordered sequence of key/value pairs, or report
    /// the unterminated multi-line key if the text ends while one is still
    /// being accumulated. The result is exactly `parse_spec` of the text.
    pub fn parse(data: &str) -> (r: Result<KeyVals, String>)
        ensures
            match r {
                Ok(kvs) => parse_spec(data@) == Ok::<Seq<PairV>, Seq<char>>(kvs_view(kvs@)),
                Err(e) => parse_spec(data@) == Err::<Seq<PairV>, Seq<char>>(e@),
            },
    {
        let chars = to_chars(data);
        let lines = split_lines(&chars);
        let ghost all_lines = str_lines(data@);
        // Discard the leading blank lines.
        let mut b: usize = 0;
        while b < lines.len() && line_blank(&lines[b])
            invariant
                0 <= b <= lines@.len(),
                crate::text::lines_view(lines@) == all_lines,
                forall|j: int| 0 <= j < b ==> is_blank(#[trigger] all_lines[j]),
            decreases lines@.len() - b,
        {
            b = b + 1;
        }
        proof {
            lemma_first_nonblank_at(all_lines, b as int);
        }
        if b == lines.len() {
            proof {
                assert(kvs_view(Seq::<KeyVal>::empty()) =~= Seq::<PairV>::empty());
            }
            return Ok(Vec::new());
        }
        let ghost rest = all_lines.skip(b as int);
        let baseline = line_indent(&lines[b]);
        proof {
            assert(rest[0] == all_lines[b as int]);
        }
        let mut pairs: Vec<(Vec<char>, Vec<char>)> = Vec::new();
        let mut key_buf: Vec<char> = Vec::new();
        let mut i: usize = b;
        proof {
            assert(pairs_view(pairs@) =~= Seq::<PairV>::empty());
        }
        while i < lines.len()
            invariant
                b <= i <= lines@.len(),
                b < lines@.len(),
                crate::text::lines_view(lines@) == all_lines,
                rest == all_lines.skip(b as int),
                baseline == indent_of(all_lines[b as int]),
                !is_blank(all_lines[b as int]),
                run_lines(rest, baseline as int, i - b) == (LineState {
                    pairs: pairs_view(pairs@),
                    key_buf: key_buf@,
                }),
            decreases lines@.len() - i,
        {
            let ghost st_old = run_lines(rest, baseline as int, i - b);
            let line = &lines[i];
            proof {
                assert(rest[i - b] == all_lines[i as int]);
                assert(line@ == rest[i - b]);
            }
            let blank = line_blank(line);
            let has_sep = find_char_from(line, 0, '=') < line.len();
            proof {
                assert(line@.skip(0) =~= line@);
            }
            let ind = line_indent(line);
            if blank {
                if key_buf.len() > 0 {
                    continue_key_buf(&mut key_buf, line);
                } else {
                    proof {
                        if i == b {
                            assert(!is_blank(line@));
                        }
                        lemma_run_lines_populated(rest, baseline as int, i - b);
                    }
                    continue_last_value(&mut pairs, line);
                }
            } else {
                if key_buf.len() > 0 {
                    if has_sep {
                        add_new_key_val(&mut key_buf, line, &mut pairs);
                    } else {
                        continue_key_buf(&mut key_buf, line);
                    }
                } else {
                    if ind > baseline {
                        proof {
                            if i == b {
                                assert(indent_of(line@) == baseline);
                            }
                            lemma_run_lines_populated(rest, baseline as int, i - b);
                        }
                        continue_last_value(&mut pairs, line);
                    } else {
                        if has_sep {
                            add_new_key_val(&mut key_buf, line, &mut pairs);
                        } else {
                            continue_key_buf(&mut key_buf, line);
                        }
                    }
                }
            }
            proof {
                assert(run_lines(rest, baseline as int, i - b + 1) == step_line(
                    st_old,
                    rest[i - b],
                    baseline as int,
                ));
                assert(pairs_view(pairs@) =~~= run_lines(rest, baseline as int, i - b + 1).pairs);
                assert(key_buf@ =~= run_lines(rest, baseline as int, i - b + 1).key_buf);
            }
            i = i + 1;
        }
        let ghost st = run_lines(rest, baseline as int, rest.len() as int);
        proof {
            assert(rest.len() == lines@.len() - b);
        }
        // An unterminated multi-line key is the only parse error.
        if key_buf.len() > 0 {
            let kb = trim_bounds(&key_buf);
            let kt = copy_range(&key_buf, kb.0, kb.1);
            let mut msg = "No value found for key: ".to_owned();
            let tail = string_from_chars(&kt);
            msg.append(tail.as_str());
            return Err(msg);
        }
        // Shed trailing whitespace from every completed value.
        let mut result: Vec<KeyVal> = Vec::new();
        let n = pairs.len();
        let ghost pview = pairs_view(pairs@);
        let mut j: usize = 0;
        proof {
            assert(kvs_view(result@) =~= final_pairs(st).take(0));
        }
        while j < n
            invariant
                0 <= j <= n,
                pairs@.len() == n - j,
                pairs_view(pairs@) =~~= pview.skip(j as int),
                pview == st.pairs,
                st.key_buf.len() == 0,
                final_pairs(st).len() == n,
                kvs_view(result@) =~~= final_pairs(st).take(j as int),
            decreases n - j,
        {
            let ghost pp = pairs@;
            let p = pairs.remove(0);
            proof {
                assert(pairs@ =~= pp.drop_first());
                assert forall|t: int| 0 <= t < pairs@.len() implies (
                #[trigger] pairs_view(pairs@)[t]) == pview.skip(j + 1)[t] by {
                    assert(pairs@[t] == pp[t + 1]);
                    assert(pairs_view(pp)[t + 1] == pview.skip(j as int)[t + 1]);
                }
                assert(pairs_view(pairs@) =~~= pview.skip(j + 1));
            }
            let e = trim_end_bound(&p.1);
            let vt = copy_range(&p.1, 0, e);
            let kv = KeyVal { key: string_from_chars(&p.0), value: string_from_chars(&vt) };
            let ghost rr = result@;
            result.push(kv);
            proof {
                assert(p.1@.subrange(0, e as int) =~= p.1@.take(e as int));
                assert((p.0@, p.1@) == pairs_view(pp)[0]);
                assert(pairs_view(pp)[0] == pview.skip(j as int)[0]);
                assert(pview.skip(j as int)[0] == pview[j as int]);
                assert(kv@ == final_pairs(st)[j as int]);
                assert(kvs_view(rr).len() == rr.len());
                assert(rr.len() == j);
                assert(result@ == rr.push(kv));
                assert forall|t: int| 0 <= t < j + 1 implies (#[trigger] kvs_view(result@)[t])
                    == final_pairs(st).take(j + 1)[t] by {
                    if t < j {
                        assert(result@[t] == rr[t]);
                        assert(kvs_view(rr)[t] == final_pairs(st).take(j as int)[t]);
                    } else {
                        assert(result@[t] == kv);
                    }
                }
                assert(kvs_view(result@) =~~= final_pairs(st).take(j + 1));
            }
            j = j + 1;
        }
        proof {
            assert(final_pairs(st).take(n as int) =~~= final_pairs(st));
            assert(kvs_view(result@) =~~= final_pairs(st));
        }
        Ok(result)
    }
}

/// A node of the grouped tree: an opaque leaf string, or the subtree its
/// value parses to.
#[derive(Debug)]
pub enum KeyValNode {
    Leaf(String),
    Tree(KeyValTree),
}

/// A mapping from key to the ordered list of that key's nodes, with keys in
/// lexicographic order and repeated-key occurrences kept in source order.
#[derive(Debug)]
pub struct KeyValTree {
    pub entries: Vec<(String, Vec<KeyValNode>)>,
}

/// The mathematical form of a node.
#[verifier::ext_equal]
pub enum NodeV {
    Leaf(Seq<char>),
    Tree(TreeV),
}

/// The mathematical form of a grouped tree.
pub type TreeV = Seq<(Seq<char>, Seq<NodeV>)>;

pub open spec fn node_view(n: KeyValNode) -> NodeV
    decreases n,
{
    match n {
        KeyValNode::Leaf(s) => NodeV::Leaf(s@),
        KeyValNode::Tree(t) => NodeV::Tree(tree_view(t)),
    }
}

pub open spec fn nodes_view(ns: Seq<KeyValNode>) -> Seq<NodeV>
    decreases ns,
{
    if ns.len() == 0 {
        Seq::empty()
    } else {
        nodes_view(ns.drop_last()).push(node_view(ns.last()))
    }
}

pub open spec fn tentries_view(s: Seq<(String, Vec<KeyValNode>)>) -> TreeV
    decreases s,
{
    if s.len() == 0 {
        Seq::empty()
    } else {
        tentries_view(s.drop_last()).push((s.last().0@, nodes_view(s.last().1@)))
    }
}

pub open spec fn tree_view(t: KeyValTree) -> TreeV
    decreases t,
{
    tentries_view(t.entries@)
}

impl View for KeyValTree {
    type V = TreeV;

    open spec fn view(&self) -> TreeV {
        tree_view(*self)
    }
}

pub proof fn lemma_nodes_view(ns: Seq<KeyValNode>)
    ensures
        nodes_view(ns).len() == ns.len(),
        forall|i: int| 0 <= i < ns.len() ==> nodes_view(ns)[i] == node_view(ns[i]),
    decreases ns.len(),
{
    if ns.len() > 0 {
        lemma_nodes_view(ns.drop_last());
        assert(ns.drop_last().len() == ns.len() - 1);
        assert forall|i: int| 0 <= i < ns.len() implies nodes_view(ns)[i] == node_view(ns[i]) by {
            if i < ns.len() - 1 {
                assert(ns.drop_last()[i] == ns[i]);
            }
        }
    }
}

pub proof fn lemma_tentries_view(s: Seq<(String, Vec<KeyValNode>)>)
    ensures
        tentries_view(s).len() == s.len(),
        forall|i: int|
            0 <= i < s.len() ==> tentries_view(s)[i] == (s[i].0@, nodes_view(s[i].1@)),
    decreases s.len(),
{
    if s.len() > 0 {
        lemma_tentries_view(s.drop_last());
        assert(s.drop_last().len() == s.len() - 1);
        assert forall|i: int|
            0 <= i < s.len() implies tentries_view(s)[i] == (s[i].0@, nodes_view(s[i].1@)) by {
            if i < s.len() - 1 {
                assert(s.drop_last()[i] == s[i]);
            }
        }
    }
}

/// A grouped tree is well-formed when its keys are strictly increasing, each
/// key holds at least one node, and every subtree is well-formed.
pub open spec fn tree_wf(t: TreeV) -> bool
    decreases t,
{
    &&& (forall|i: int, j: int| 0 <= i < j < t.len() ==> #[trigger] seq_lt(t[i].0, t[j].0))
    &&& (forall|i: int| 0 <= i < t.len() ==> (#[trigger] t[i].1).len() > 0)
    &&& (forall|i: int, j: int|
        0 <= i < t.len() && 0 <= j < t[i].1.len() ==> node_wf(#[trigger] t[i].1[j]))
}

pub open spec fn node_wf(n: NodeV) -> bool
    decreases n,
{
    match n {
        NodeV::Leaf(_) => true,
        NodeV::Tree(t) => tree_wf(t),
    }
}

/// Insert one node under a key: appended to the key's list when the key is
/// present, else a new single-node entry at the key's ordered position.
pub open spec fn tree_insert(t: TreeV, key: Seq<char>, node: NodeV) -> TreeV
    decreases t.len(),
{
    if t.len() == 0 {
        seq![(key, seq![node])]
    } else if seq_lt(key, t[0].0) {
        seq![(key, seq![node])] + t
    } else if key == t[0].0 {
        seq![(t[0].0, t[0].1.push(node))] + t.drop_first()
    } else {
        seq![t[0]] + tree_insert(t.drop_first(), key, node)
    }
}

/// Where the insertion lands: at the first entry whose key is not below the
/// inserted key, either joining it or standing before it.
pub proof fn lemma_tree_insert_at(t: TreeV, key: Seq<char>, node: NodeV, i: int)
    requires
        0 <= i <= t.len(),
        forall|j: int| 0 <= j < i ==> seq_lt(#[trigger] t[j].0, key),
        i < t.len() ==> !seq_lt(t[i].0, key),
    ensures
        (i < t.len() && t[i].0 == key) ==> tree_insert(t, key, node) == t.update(
            i,
            (t[i].0, t[i].1.push(node)),
        ),
        !(i < t.len() && t[i].0 == key) ==> tree_insert(t, key, node) == t.take(i) + seq![
            (key, seq![node]),
        ] + t.skip(i),
    decreases t.len(),
{
    if t.len() == 0 {
        assert(tree_insert(t, key, node) =~= t.take(0) + seq![(key, seq![node])] + t.skip(0));
    } else if i == 0 {
        if seq_lt(key, t[0].0) {
            assert(tree_insert(t, key, node) =~= t.take(0) + seq![(key, seq![node])] + t.skip(0));
        } else {
            lemma_seq_lt_connected(key, t[0].0);
            assert(key == t[0].0);
            assert(tree_insert(t, key, node) == seq![(t[0].0, t[0].1.push(node))] + t.drop_first());
            assert(tree_insert(t, key, node) =~= t.update(0, (t[0].0, t[0].1.push(node))));
        }
    } else {
        assert(seq_lt(t[0].0, key));
        lemma_seq_lt_asym(t[0].0, key);
        lemma_seq_lt_irrefl(t[0].0);
        assert(key != t[0].0);
        let td = t.drop_first();
        assert(td.len() == t.len() - 1);
        assert forall|j: int| 0 <= j < i - 1 implies seq_lt(#[trigger] td[j].0, key) by {
            assert(td[j] == t[j + 1]);
        }
        if i < t.len() {
            assert(td[i - 1] == t[i]);
        }
        lemma_tree_insert_at(td, key, node, i - 1);
        assert(tree_insert(t, key, node) == seq![t[0]] + tree_insert(td, key, node));
        if i < t.len() && t[i].0 == key {
            assert(tree_insert(td, key, node) == td.update(i - 1, (td[i - 1].0, td[i - 1].1.push(
                node,
            ))));
            assert forall|j: int|
                0 <= j < t.len() implies (seq![t[0]] + td.update(
                i - 1,
                (td[i - 1].0, td[i - 1].1.push(node)),
            ))[j] == t.update(i, (t[i].0, t[i].1.push(node)))[j] by {
                if j > 0 {
                    assert(td[j - 1] == t[j]);
                }
            }
            assert(tree_insert(t, key, node) =~= t.update(i, (t[i].0, t[i].1.push(node))));
        } else {
            assert(tree_insert(td, key, node) == td.take(i - 1) + seq![(key, seq![node])] + td.skip(
                i - 1,
            ));
            assert forall|j: int|
                0 <= j < t.len() + 1 implies (seq![t[0]] + (td.take(i - 1) + seq![
                (key, seq![node]),
            ] + td.skip(i - 1)))[j] == (t.take(i) + seq![(key, seq![node])] + t.skip(i))[j] by {
                if 0 < j < i {
                    assert(td.take(i - 1)[j - 1] == td[j - 1]);
                    assert(td[j - 1] == t[j]);
                    assert(t.take(i)[j] == t[j]);
                } else if j > i {
                    assert(td.skip(i - 1)[j - 1 - i] == td[j - 2]);
                    assert(td[j - 2] == t[j - 1]);
                    assert(t.skip(i)[j - i - 1] == t[j - 1]);
                }
            }
            assert(tree_insert(t, key, node) =~= t.take(i) + seq![(key, seq![node])] + t.skip(i));
        }
    }
}

impl KeyValTree {
    /// The tree with no keys.
    pub fn new() -> (r: Self)
        ensures
            r@ == Seq::<(Seq<char>, Seq<NodeV>)>::empty(),
            tree_wf(r@),
    {
        let r = KeyValTree { entries: Vec::new() };
        proof {
            assert(r@ =~= Seq::<(Seq<char>, Seq<NodeV>)>::empty());
        }
        r
    }
}

/// Insert a node under a key, appending to the key's list when the key has
/// been seen before, at the key's ordered position otherwise.
#[verifier::loop_isolation(false)]
pub fn insert_map(map: &mut KeyValTree, key: &str, node: KeyValNode)
    ensures
        final(map)@ == tree_insert(old(map)@, key@, node_view(node)),
{
    let ghost ent0 = map.entries@;
    let ghost t = map@;
    let ghost node_g = node;
    let ghost nv = node_view(node_g);
    proof {
        lemma_tentries_view(ent0);
    }
    let n = map.entries.len();
    let mut i: usize = 0;
    while i < n
        invariant
            0 <= i <= n,
            map.entries@ == ent0,
            n == ent0.len(),
            t == tentries_view(ent0),
            t.len() == n,
            forall|j: int|
                0 <= j < n ==> #[trigger] t[j] == (ent0[j].0@, nodes_view(ent0[j].1@)),
            forall|j: int| 0 <= j < i ==> seq_lt(#[trigger] t[j].0, key@),
            node == node_g,
            nv == node_view(node_g),
            map@ == t,
        decreases n - i,
    {
        let c = str_cmp(map.entries[i].0.as_str(), key);
        match c {
            Cmp::Lt => {
                i = i + 1;
            },
            Cmp::Eq => {
                proof {
                    lemma_seq_lt_irrefl(key@);
                    lemma_tree_insert_at(t, key@, nv, i as int);
                }
                let mut entry = map.entries.remove(i);
                let ghost oldnodes = entry.1@;
                entry.1.push(node);
                let ghost newnodes = entry.1@;
                let ghost entry_g = entry;
                map.entries.insert(i, entry);
                proof {
                    lemma_nodes_view(oldnodes);
                    lemma_nodes_view(newnodes);
                    assert(newnodes.drop_last() =~= oldnodes);
                    assert(newnodes.last() == node_g);
                    assert(newnodes.len() > 0);
                    assert(nodes_view(newnodes) == nodes_view(newnodes.drop_last()).push(
                        node_view(newnodes.last()),
                    ));
                    assert(node_view(newnodes.last()) == nv);
                    assert(nodes_view(newnodes) == nodes_view(oldnodes).push(nv));
                    assert(oldnodes == ent0[i as int].1@);
                    assert(entry_g.0@ == ent0[i as int].0@);
                    assert(map.entries@ =~= ent0.update(i as int, entry_g));
                    lemma_tentries_view(map.entries@);
                    assert forall|j: int|
                        0 <= j < n implies tentries_view(map.entries@)[j] == t.update(
                        i as int,
                        (t[i as int].0, t[i as int].1.push(nv)),
                    )[j] by {
                        if j != i {
                            assert(map.entries@[j] == ent0[j]);
                        } else {
                            assert(map.entries@[j] == entry_g);
                        }
                    }
                    assert(map@ =~~= tree_insert(t, key@, nv));
                }
                return ;
            },
            Cmp::Gt => {
                proof {
                    lemma_seq_lt_asym(key@, t[i as int].0);
                    lemma_tree_insert_at(t, key@, nv, i as int);
                }
                let mut nodes: Vec<KeyValNode> = Vec::new();
                nodes.push(node);
                let owned = key.to_owned();
                let ghost entry_g = (owned, nodes);
                map.entries.insert(i, (owned, nodes));
                proof {
                    assert(entry_g.1@.drop_last() =~= Seq::<KeyValNode>::empty());
                    assert(entry_g.1@.len() == 1);
                    assert(nodes_view(entry_g.1@) == nodes_view(entry_g.1@.drop_last()).push(
                        node_view(entry_g.1@.last()),
                    ));
                    assert(node_view(entry_g.1@.last()) == nv);
                    assert(nodes_view(entry_g.1@) =~= seq![nv]);
                    assert(map.entries@ =~= ent0.insert(i as int, entry_g));
                    lemma_tentries_view(map.entries@);
                    assert forall|j: int|
                        0 <= j < n + 1 implies tentries_view(map.entries@)[j] == (t.take(i as int)
                        + seq![(key@, seq![nv])] + t.skip(i as int))[j] by {
                        if j < i {
                            assert(map.entries@[j] == ent0[j]);
                            assert(t.take(i as int)[j] == t[j]);
                        } else if j > i {
                            assert(map.entries@[j] == ent0[j - 1]);
                            assert(t.skip(i as int)[j - i - 1] == t[j - 1]);
                        } else {
                            assert(map.entries@[j] == entry_g);
                        }
                    }
                    assert(map@ =~~= tree_insert(t, key@, nv));
                }
                return ;
            },
        }
    }
    proof {
        lemma_tree_insert_at(t, key@, nv, n as int);
    }
    let mut nodes: Vec<KeyValNode> = Vec::new();
    nodes.push(node);
    let owned = key.to_owned();
    let ghost entry_g = (owned, nodes);
    map.entries.push((owned, nodes));
    proof {
        assert(entry_g.1@.drop_last() =~= Seq::<KeyValNode>::empty());
        lemma_nodes_view(entry_g.1@);
        assert(nodes_view(entry_g.1@) =~= seq![nv]);
        assert(map.entries@ =~= ent0.push(entry_g));
        lemma_tentries_view(map.entries@);
        assert forall|j: int|
            0 <= j < n + 1 implies tentries_view(map.entries@)[j] == (t.take(n as int) + seq![
            (key@, seq![nv]),
        ] + t.skip(n as int))[j] by {
            if j < n {
                assert(map.entries@[j] == ent0[j]);
                assert(t.take(n as int)[j] == t[j]);
            } else {
                assert(map.entries@[j] == entry_g);
            }
        }
        assert(map@ =~~= tree_insert(t, key@, nv));
    }
}


/// Combined length of the values of a pair sequence: the measure that makes
/// the recursive grouping well-founded.
pub open spec fn weight(pairs: Seq<PairV>) -> nat
    decreases pairs.len(),
{
    if pairs.len() == 0 {
        0
    } else {
        weight(pairs.drop_last()) + pairs.last().1.len()
    }
}

pub proof fn lemma_weight_at(pairs: Seq<PairV>, i: int)
    requires
        0 <= i < pairs.len(),
    ensures
        weight(pairs) >= pairs[i].1.len(),
    decreases pairs.len(),
{
    if i < pairs.len() - 1 {
        lemma_weight_at(pairs.drop_last(), i);
        assert(pairs.drop_last()[i] == pairs[i]);
    }
}

proof fn lemma_weight_pointwise(s1: Seq<PairV>, s2: Seq<PairV>)
    requires
        s1.len() == s2.len(),
        forall|i: int| 0 <= i < s1.len() ==> (#[trigger] s1[i]).1.len() <= s2[i].1.len(),
    ensures
        weight(s1) <= weight(s2),
    decreases s1.len(),
{
    if s1.len() > 0 {
        assert forall|i: int|
            0 <= i < s1.len() - 1 implies (#[trigger] s1.drop_last()[i]).1.len()
            <= s2.drop_last()[i].1.len() by {
            assert(s1.drop_last()[i] == s1[i]);
            assert(s2.drop_last()[i] == s2[i]);
        }
        lemma_weight_pointwise(s1.drop_last(), s2.drop_last());
    }
}

/// Total length of the first `n` lines, a line terminator counted with each.
pub open spec fn consumed(lines: Seq<Seq<char>>, n: int) -> nat
    decreases n,
{
    if n <= 0 {
        0
    } else {
        consumed(lines, n - 1) + lines[n - 1].len() + 1
    }
}

proof fn lemma_consumed_shift(h: Seq<char>, rest: Seq<Seq<char>>, n: int)
    requires
        0 <= n <= rest.len(),
    ensures
        consumed(seq![h] + rest, n + 1) == h.len() + 1 + consumed(rest, n),
    decreases n,
{
    if n == 0 {
        assert((seq![h] + rest)[0] == h);
        assert(consumed(seq![h] + rest, 0) == 0);
        assert(consumed(rest, 0) == 0);
    } else {
        lemma_consumed_shift(h, rest, n - 1);
        assert((seq![h] + rest)[n] == rest[n - 1]);
    }
}

proof fn lemma_consumed_pointwise(ls1: Seq<Seq<char>>, ls2: Seq<Seq<char>>, n: int)
    requires
        0 <= n <= ls1.len(),
        n <= ls2.len(),
        forall|i: int| 0 <= i < n ==> (#[trigger] ls1[i]).len() <= ls2[i].len(),
    ensures
        consumed(ls1, n) <= consumed(ls2, n),
    decreases n,
{
    if n > 0 {
        lemma_consumed_pointwise(ls1, ls2, n - 1);
    }
}

proof fn lemma_consumed_mono(ls: Seq<Seq<char>>, m: int, n: int)
    requires
        0 <= m <= n,
    ensures
        consumed(ls, m) <= consumed(ls, n),
    decreases n,
{
    if m < n {
        lemma_consumed_mono(ls, m, n - 1);
    }
}

proof fn lemma_consumed_skip(ls: Seq<Seq<char>>, b: int, m: int)
    requires
        0 <= b,
        0 <= m,
        b + m <= ls.len(),
    ensures
        consumed(ls.skip(b), m) + consumed(ls, b) == consumed(ls, b + m),
    decreases m,
{
    if m > 0 {
        lemma_consumed_skip(ls, b, m - 1);
        assert(ls.skip(b)[m - 1] == ls[b + m - 1]);
    }
}

/// The total length of the raw pieces, a terminator counted with each, is
/// one more than the length of the text.
proof fn lemma_raw_split_consumed(t: Seq<char>)
    ensures
        consumed(raw_split(t), raw_split(t).len() as int) == t.len() + 1,
    decreases t.len(),
{
    let k = first_char(t, '\n');
    lemma_first_char(t, '\n');
    if k == t.len() {
        assert(consumed(seq![t], 0) == 0);
        assert(consumed(seq![t], 1) == t.len() + 1);
    } else {
        let rest = t.skip(k + 1);
        lemma_raw_split_consumed(rest);
        lemma_consumed_shift(t.take(k), raw_split(rest), raw_split(rest).len() as int);
    }
}

/// A line of `str_lines` is never longer than the raw piece it came from.
proof fn lemma_str_lines_consumed(t: Seq<char>)
    ensures
        consumed(str_lines(t), str_lines(t).len() as int) <= t.len() + 1,
{
    let raw = raw_split(t);
    let lines = str_lines(t);
    lemma_raw_split_consumed(t);
    assert forall|i: int| 0 <= i < lines.len() implies (#[trigger] lines[i]).len()
        <= raw[i].len() by {}
    lemma_consumed_pointwise(lines, raw, lines.len() as int);
    lemma_consumed_mono(raw, lines.len() as int, raw.len() as int);
}

/// Each step of the line machine spends no more than the line it reads: the
/// values, two characters per pair, and the pending key all fit in what has
/// been consumed so far.
proof fn lemma_run_weight(lines: Seq<Seq<char>>, baseline: int, n: int)
    requires
        0 <= n <= lines.len(),
    ensures
        weight(run_lines(lines, baseline, n).pairs) + 2 * run_lines(lines, baseline, n).pairs.len()
            + run_lines(lines, baseline, n).key_buf.len() <= consumed(lines, n),
    decreases n,
{
    if n > 0 {
        lemma_run_weight(lines, baseline, n - 1);
        let st = run_lines(lines, baseline, n - 1);
        let st2 = run_lines(lines, baseline, n);
        let line = lines[n - 1];
        crate::text::lemma_trim_lens(line);
        let has_sep = first_char(line, '=') < line.len();
        let emits = if is_blank(line) {
            false
        } else if st.key_buf.len() > 0 {
            has_sep
        } else if indent_of(line) > baseline {
            false
        } else {
            has_sep
        };
        let continues_value = if is_blank(line) {
            st.key_buf.len() == 0
        } else {
            st.key_buf.len() == 0 && indent_of(line) > baseline
        };
        if emits {
            lemma_first_char(line, '=');
            let k = first_char(line, '=');
            let right = line.skip(k + 1);
            crate::text::lemma_trim_lens(right);
            assert(st2.pairs.drop_last() =~= st.pairs);
            assert(weight(st2.pairs) == weight(st.pairs) + trim_spec(right).len());
            assert(right.len() == line.len() - k - 1);
        } else if continues_value {
            if st.pairs.len() > 0 {
                let last = st.pairs.last();
                let nl = (last.0, last.1 + seq!['\n'] + trim_end_spec(line));
                assert(st2.pairs == st.pairs.update(st.pairs.len() - 1, nl));
                assert(st2.pairs =~= st.pairs.drop_last().push(nl));
                assert(st2.pairs.drop_last() =~= st.pairs.drop_last());
                assert(weight(st2.pairs) == weight(st.pairs.drop_last()) + nl.1.len());
                assert(weight(st.pairs) == weight(st.pairs.drop_last()) + last.1.len());
                assert(nl.1.len() <= last.1.len() + 1 + line.len());
            }
        } else {
            // the line joins the pending key
            assert(st2.key_buf == st.key_buf + seq!['\n'] + trim_end_spec(line));
            assert(st2.key_buf.len() <= st.key_buf.len() + 1 + line.len());
        }
    }
}

/// What parsing yields fits in the text: the values of the pairs, counted
/// with two characters per pair, never exceed the text plus one character.
/// This is what makes the recursive grouping of values terminate.
pub proof fn lemma_parse_weight(text: Seq<char>)
    ensures
        parse_spec(text) matches Ok(ps) ==> weight(ps) + 2 * ps.len() <= text.len() + 1,
{
    let lines = str_lines(text);
    let b = first_nonblank(lines);
    if b < lines.len() {
        let rest = lines.skip(b);
        let baseline = indent_of(rest[0]);
        let st = run_lines(rest, baseline, rest.len() as int);
        if st.key_buf.len() == 0 {
            lemma_first_nonblank_bounds(lines);
            lemma_run_weight(rest, baseline, rest.len() as int);
            let fp = final_pairs(st);
            assert forall|i: int| 0 <= i < fp.len() implies (#[trigger] fp[i]).1.len()
                <= st.pairs[i].1.len() by {
                crate::text::lemma_trim_lens(st.pairs[i].1);
            }
            lemma_weight_pointwise(fp, st.pairs);
            lemma_consumed_skip(lines, b, rest.len() as int);
            lemma_str_lines_consumed(text);
            assert(consumed(rest, rest.len() as int) <= consumed(lines, lines.len() as int));
        }
    }
}

/// What a value groups to: a subtree when it parses to one or more pairs, an
/// opaque leaf otherwise. A parse error is absorbed here, never surfaced.
pub open spec fn node_of_value(value: Seq<char>) -> NodeV
    decreases value.len() + 1nat, 0nat,
    via node_of_value_dec
{
    match parse_spec(value) {
        Ok(ps) => if ps.len() > 0 {
            NodeV::Tree(group_pairs(ps))
        } else {
            NodeV::Leaf(value)
        },
        Err(_) => NodeV::Leaf(value),
    }
}

#[via_fn]
proof fn node_of_value_dec(value: Seq<char>) {
    lemma_parse_weight(value);
}

/// The grouped tree of a pair sequence: each pair's node inserted under its
/// key, in source order.
pub open spec fn group_pairs(pairs: Seq<PairV>) -> TreeV
    decreases weight(pairs) + pairs.len(), 1nat,
    via group_pairs_dec
{
    if pairs.len() == 0 {
        Seq::empty()
    } else {
        tree_insert(group_pairs(pairs.drop_last()), pairs.last().0, node_of_value(pairs.last().1))
    }
}

#[via_fn]
proof fn group_pairs_dec(pairs: Seq<PairV>) {
    if pairs.len() > 0 {
        assert(weight(pairs) == weight(pairs.drop_last()) + pairs.last().1.len());
    }
}

/// Insertion keeps a tree well-formed, provided the node's own subtree is.
pub proof fn lemma_tree_insert_wf(t: TreeV, key: Seq<char>, node: NodeV)
    requires
        tree_wf(t),
        node_wf(node),
    ensures
        tree_wf(tree_insert(t, key, node)),
        tree_insert(t, key, node).len() > 0,
        tree_insert(t, key, node)[0].0 == key || (t.len() > 0 && tree_insert(t, key, node)[0].0
            == t[0].0),
    decreases t.len(),
{
    let r = tree_insert(t, key, node);
    if t.len() == 0 {
        assert(r == seq![(key, seq![node])]);
        assert forall|a: int, b: int|
            0 <= a < r.len() && 0 <= b < r[a].1.len() implies node_wf(#[trigger] r[a].1[b]) by {
            assert(r[a].1[b] == node);
        }
    } else if seq_lt(key, t[0].0) {
        assert(r == seq![(key, seq![node])] + t);
        assert forall|a: int, b: int| 0 <= a < b < r.len() implies #[trigger] seq_lt(
            r[a].0,
            r[b].0,
        ) by {
            assert(r[b] == t[b - 1]);
            if a == 0 {
                if b > 1 {
                    lemma_seq_lt_trans(key, t[0].0, t[b - 1].0);
                }
            } else {
                assert(r[a] == t[a - 1]);
            }
        }
        assert forall|a: int| 0 <= a < r.len() implies (#[trigger] r[a].1).len() > 0 by {
            if a > 0 {
                assert(r[a] == t[a - 1]);
            }
        }
        assert forall|a: int, b: int|
            0 <= a < r.len() && 0 <= b < r[a].1.len() implies node_wf(#[trigger] r[a].1[b]) by {
            if a == 0 {
                assert(r[a].1[b] == node);
            } else {
                assert(r[a] == t[a - 1]);
            }
        }
    } else if key == t[0].0 {
        assert(r == seq![(t[0].0, t[0].1.push(node))] + t.drop_first());
        assert(r =~= t.update(0, (t[0].0, t[0].1.push(node))));
        assert forall|a: int, b: int| 0 <= a < b < r.len() implies #[trigger] seq_lt(
            r[a].0,
            r[b].0,
        ) by {
            assert(r[a].0 == t[a].0);
            assert(r[b].0 == t[b].0);
        }
        assert forall|a: int| 0 <= a < r.len() implies (#[trigger] r[a].1).len() > 0 by {
            if a > 0 {
                assert(r[a] == t[a]);
            }
        }
        assert forall|a: int, b: int|
            0 <= a < r.len() && 0 <= b < r[a].1.len() implies node_wf(#[trigger] r[a].1[b]) by {
            if a == 0 {
                if b < t[0].1.len() {
                    assert(r[a].1[b] == t[0].1[b]);
                } else {
                    assert(r[a].1[b] == node);
                }
            } else {
                assert(r[a] == t[a]);
            }
        }
    } else {
        lemma_seq_lt_connected(key, t[0].0);
        assert(seq_lt(t[0].0, key));
        let td = t.drop_first();
        assert(td.len() == t.len() - 1);
        assert forall|a: int, b: int| 0 <= a < b < td.len() implies #[trigger] seq_lt(
            td[a].0,
            td[b].0,
        ) by {
            assert(td[a] == t[a + 1]);
            assert(td[b] == t[b + 1]);
        }
        assert forall|a: int| 0 <= a < td.len() implies (#[trigger] td[a].1).len() > 0 by {
            assert(td[a] == t[a + 1]);
        }
        assert forall|a: int, b: int|
            0 <= a < td.len() && 0 <= b < td[a].1.len() implies node_wf(#[trigger] td[a].1[b]) by {
            assert(td[a] == t[a + 1]);
        }
        lemma_tree_insert_wf(td, key, node);
        let rest = tree_insert(td, key, node);
        assert(r == seq![t[0]] + rest);
        assert forall|a: int, b: int| 0 <= a < b < r.len() implies #[trigger] seq_lt(
            r[a].0,
            r[b].0,
        ) by {
            assert(r[b] == rest[b - 1]);
            if a == 0 {
                if rest[0].0 == key {
                    assert(seq_lt(t[0].0, rest[0].0));
                } else {
                    assert(rest[0].0 == td[0].0);
                    assert(td[0] == t[1]);
                    assert(seq_lt(t[0].0, rest[0].0));
                }
                if b > 1 {
                    assert(seq_lt(rest[0].0, rest[b - 1].0));
                    lemma_seq_lt_trans(t[0].0, rest[0].0, rest[b - 1].0);
                }
            } else {
                assert(r[a] == rest[a - 1]);
            }
        }
        assert forall|a: int| 0 <= a < r.len() implies (#[trigger] r[a].1).len() > 0 by {
            if a > 0 {
                assert(r[a] == rest[a - 1]);
            }
        }
        assert forall|a: int, b: int|
            0 <= a < r.len() && 0 <= b < r[a].1.len() implies node_wf(#[trigger] r[a].1[b]) by {
            if a > 0 {
                assert(r[a] == rest[a - 1]);
            }
        }
    }
}

/// Whitespace-only text parses to the empty pair sequence: the identity law
/// of the parser.
pub proof fn lemma_parse_whitespace_only(text: Seq<char>)
    requires
        is_blank(text),
    ensures
        parse_spec(text) == Ok::<Seq<PairV>, Seq<char>>(Seq::empty()),
{
    crate::text::lemma_raw_split_blank(text);
    let raw = raw_split(text);
    let lines = str_lines(text);
    assert forall|i: int| 0 <= i < lines.len() implies is_blank(#[trigger] lines[i]) by {
        assert(is_blank(raw[i]));
        if i < raw.len() - 1 {
            assert(lines[i] == crate::text::strip_cr(raw[i]));
            if raw[i].len() > 0 && raw[i].last() == '\r' {
                assert(forall|j: int|
                    0 <= j < raw[i].drop_last().len() ==> raw[i].drop_last()[j] == raw[i][j]);
            }
        }
    }
    lemma_first_nonblank_at(lines, lines.len() as int);
}

impl KeyVal {
    /// Group an ordered pair sequence into a tree: each value is parsed
    /// again, a non-empty parse becoming a subtree and anything else an
    /// opaque leaf, and the node is filed under its key.
    pub fn parse_flat_to_tree(key_vals: &KeyVals) -> (r: KeyValTree)
        ensures
            r@ == group_pairs(kvs_view(key_vals@)),
            tree_wf(r@),
        decreases weight(kvs_view(key_vals@)) + kvs_view(key_vals@).len(),
    {
        let ghost pv = kvs_view(key_vals@);
        let mut tree = KeyValTree::new();
        let n = key_vals.len();
        let mut i: usize = 0;
        proof {
            assert(pv.take(0) =~= Seq::<PairV>::empty());
        }
        while i < n
            invariant
                0 <= i <= n,
                n == key_vals@.len(),
                pv == kvs_view(key_vals@),
                pv.len() == n,
                tree@ == group_pairs(pv.take(i as int)),
                tree_wf(tree@),
            decreases n - i,
        {
            let value = &key_vals[i].value;
            let node: KeyValNode = match KeyVal::parse(value.as_str()) {
                Ok(new_kvs) => {
                    if new_kvs.len() > 0 {
                        proof {
                            lemma_parse_weight(value@);
                            lemma_weight_at(pv, i as int);
                            assert(pv[i as int] == key_vals@[i as int]@);
                            assert(pv[i as int].1 == value@);
                            assert(weight(kvs_view(new_kvs@)) + kvs_view(new_kvs@).len()
                                <= value@.len());
                        }
                        let sub = KeyVal::parse_flat_to_tree(&new_kvs);
                        proof {
                            assert(node_of_value(value@) == NodeV::Tree(group_pairs(kvs_view(
                                new_kvs@,
                            ))));
                        }
                        KeyValNode::Tree(sub)
                    } else {
                        proof {
                            assert(kvs_view(new_kvs@) =~= Seq::<PairV>::empty());
                            assert(node_of_value(value@) == NodeV::Leaf(value@));
                        }
                        KeyValNode::Leaf(value.clone())
                    }
                },
                Err(_) => {
                    proof {
                        assert(node_of_value(value@) == NodeV::Leaf(value@));
                    }
                    KeyValNode::Leaf(value.clone())
                },
            };
            proof {
                assert(node_view(node) == node_of_value(pv[i as int].1));
                assert(node_wf(node_view(node)));
            }
            insert_map(&mut tree, key_vals[i].key.as_str(), node);
            proof {
                assert(pv.take(i + 1).drop_last() =~= pv.take(i as int));
                assert(pv.take(i + 1).last() == pv[i as int]);
                assert(group_pairs(pv.take(i + 1)) == tree_insert(
                    group_pairs(pv.take(i as int)),
                    pv[i as int].0,
                    node_of_value(pv[i as int].1),
                ));
                lemma_tree_insert_wf(
                    group_pairs(pv.take(i as int)),
                    pv[i as int].0,
                    node_of_value(pv[i as int].1),
                );
            }
            i = i + 1;
        }
        proof {
            assert(pv.take(n as int) =~= pv);
        }
        tree
    }
}


/// One hexadecimal digit, in lower case.
pub open spec fn hex_digit(n: int) -> char {
    if n == 0 {
        '0'
    } else if n == 1 {
        '1'
    } else if n == 2 {
        '2'
    } else if n == 3 {
        '3'
    } else if n == 4 {
        '4'
    } else if n == 5 {
        '5'
    } else if n == 6 {
        '6'
    } else if n == 7 {
        '7'
    } else if n == 8 {
        '8'
    } else if n == 9 {
        '9'
    } else if n == 10 {
        'a'
    } else if n == 11 {
        'b'
    } else if n == 12 {
        'c'
    } else if n == 13 {
        'd'
    } else if n == 14 {
        'e'
    } else {
        'f'
    }
}

/// A control character: the C0 range, delete, or the C1 range.
pub open spec fn is_control(c: char) -> bool {
    (c as u32) < 0x20 || (0x7f <= (c as u32) && (c as u32) <= 0x9f)
}

/// The hexadecimal escape of a control character's code point, with the
/// minimal number of digits, as Rust's Debug formatting writes it.
pub open spec fn control_escape(n: int) -> Seq<char>
    recommends
        0 <= n < 0xa0,
{
    if n < 16 {
        seq!['\\', 'u', '{', hex_digit(n), '}']
    } else {
        seq!['\\', 'u', '{', hex_digit(n / 16), hex_digit(n % 16), '}']
    }
}

/// The escaped form of one character inside a quoted value, exactly as
/// Rust's Debug formatting writes every character below U+00A0: quote,
/// backslash and the named control characters take a short backslash escape,
/// any other control character a hexadecimal escape. Characters from U+00A0
/// up stand for themselves, even the few that Debug formatting would also
/// escape.
pub open spec fn escape_char(c: char) -> Seq<char> {
    if c == '"' {
        seq!['\\', '"']
    } else if c == '\\' {
        seq!['\\', '\\']
    } else if c == '\n' {
        seq!['\\', 'n']
    } else if c == '\r' {
        seq!['\\', 'r']
    } else if c == '\t' {
        seq!['\\', 't']
    } else if c == '\0' {
        seq!['\\', '0']
    } else if is_control(c) {
        control_escape((c as u32) as int)
    } else {
        seq![c]
    }
}

pub open spec fn escape_str(s: Seq<char>) -> Seq<char>
    decreases s.len(),
{
    if s.len() == 0 {
        Seq::empty()
    } else {
        escape_str(s.drop_last()) + escape_char(s.last())
    }
}

/// One rendered pair: the key, a separator, and the value quoted with its
/// special characters escaped.
pub open spec fn pretty_pair(p: PairV) -> Seq<char> {
    p.0 + seq![' ', '=', ' ', '"'] + escape_str(p.1) + seq!['"']
}

/// The rendered pairs, joined by line feeds.
pub open spec fn pretty_pairs(ps: Seq<PairV>) -> Seq<char>
    decreases ps.len(),
{
    if ps.len() == 0 {
        Seq::empty()
    } else if ps.len() == 1 {
        pretty_pair(ps[0])
    } else {
        pretty_pairs(ps.drop_last()) + seq!['\n'] + pretty_pair(ps.last())
    }
}

fn hex_char(n: u32) -> (r: char)
    requires
        n < 16,
    ensures
        r == hex_digit(n as int),
{
    if n == 0 {
        '0'
    } else if n == 1 {
        '1'
    } else if n == 2 {
        '2'
    } else if n == 3 {
        '3'
    } else if n == 4 {
        '4'
    } else if n == 5 {
        '5'
    } else if n == 6 {
        '6'
    } else if n == 7 {
        '7'
    } else if n == 8 {
        '8'
    } else if n == 9 {
        '9'
    } else if n == 10 {
        'a'
    } else if n == 11 {
        'b'
    } else if n == 12 {
        'c'
    } else if n == 13 {
        'd'
    } else if n == 14 {
        'e'
    } else {
        'f'
    }
}

fn push_escaped(out: &mut Vec<char>, value: &Vec<char>)
    ensures
        final(out)@ == old(out)@ + escape_str(value@),
{
    let n = value.len();
    let mut i: usize = 0;
    proof {
        assert(old(out)@ + escape_str(value@.take(0)) =~= old(out)@);
    }
    while i < n
        invariant
            0 <= i <= n,
            n == value@.len(),
            out@ == old(out)@ + escape_str(value@.take(i as int)),
        decreases n - i,
    {
        let c = value[i];
        if c == '"' || c == '\\' || c == '\n' || c == '\r' || c == '\t' || c == '\0' {
            out.push('\\');
            if c == '"' {
                out.push('"');
            } else if c == '\\' {
                out.push('\\');
            } else if c == '\n' {
                out.push('n');
            } else if c == '\r' {
                out.push('r');
            } else if c == '\t' {
                out.push('t');
            } else {
                out.push('0');
            }
        } else {
            let u = c as u32;
            if u < 0x20 || (0x7f <= u && u <= 0x9f) {
                out.push('\\');
                out.push('u');
                out.push('{');
                if u < 16 {
                    out.push(hex_char(u));
                } else {
                    out.push(hex_char(u / 16));
                    out.push(hex_char(u % 16));
                }
                out.push('}');
            } else {
                out.push(c);
            }
        }
        proof {
            assert(value@.take(i + 1).drop_last() =~= value@.take(i as int));
            assert(value@.take(i + 1).last() == value@[i as int]);
            assert(out@ =~= old(out)@ + escape_str(value@.take(i as int)) + escape_char(
                value@[i as int],
            ));
        }
        i = i + 1;
    }
    proof {
        assert(value@.take(n as int) =~= value@);
    }
}

impl KeyVal {
    /// Render a pair sequence, one pair per line, each value quoted and
    /// escaped as Rust's Debug formatting does for every character below
    /// U+00A0; characters from U+00A0 up stand for themselves.
    pub fn pretty(key_vals: &KeyVals) -> (r: String)
        ensures
            r@ == pretty_pairs(kvs_view(key_vals@)),
    {
        let ghost pv = kvs_view(key_vals@);
        let n = key_vals.len();
        let mut out: Vec<char> = Vec::new();
        let mut i: usize = 0;
        proof {
            assert(pretty_pairs(pv.take(0)) =~= out@);
        }
        while i < n
            invariant
                0 <= i <= n,
                n == key_vals@.len(),
                pv == kvs_view(key_vals@),
                pv.len() == n,
                out@ == pretty_pairs(pv.take(i as int)),
            decreases n - i,
        {
            if i > 0 {
                out.push('\n');
            }
            let kc = to_chars(key_vals[i].key.as_str());
            push_range(&mut out, &kc, 0, kc.len());
            out.push(' ');
            out.push('=');
            out.push(' ');
            out.push('"');
            let vc = to_chars(key_vals[i].value.as_str());
            push_escaped(&mut out, &vc);
            out.push('"');
            proof {
                assert(kc@.subrange(0, kc@.len() as int) =~= kc@);
                assert(pv[i as int] == key_vals@[i as int]@);
                assert(pv.take(i + 1).drop_last() =~= pv.take(i as int));
                assert(pv.take(i + 1).last() == pv[i as int]);
                if i == 0 {
                    assert(out@ =~= pretty_pair(pv[0]));
                    assert(out@ =~= pretty_pairs(pv.take(1)));
                } else {
                    assert(out@ =~= pretty_pairs(pv.take(i as int)) + seq!['\n'] + pretty_pair(
                        pv[i as int],
                    ));
                }
            }
            i = i + 1;
        }
        proof {
            assert(pv.take(n as int) =~= pv);
        }
        string_from_chars(&out)
    }
}


/// A leaf node back as a pair under its key; a subtree has no single pair.
fn _leave_to_key_val(key: &str, node: KeyValNode) -> (r: Option<KeyVal>)
    ensures
        match r {
            Some(kv) => node_view(node) matches NodeV::Leaf(v) && kv.key@ == trim_spec(key@)
                && kv.value@ == trim_spec(v),
            None => node_view(node) is Tree,
        },
{
    match node {
        KeyValNode::Leaf(value) => Some(KeyVal::new(key.to_owned(), value)),
        KeyValNode::Tree(_) => None,
    }
}

} // verus!
