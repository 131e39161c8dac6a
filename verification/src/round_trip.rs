//! The round-trip law: printing a canonical value and running the text back
//! through the pipeline — parse, group, build — reproduces the value, for
//! every well-formed value whose keys can survive the textual form: keys
//! that carry no surrounding whitespace, no separator and no line feed.

use vstd::prelude::*;
use crate::key_val::LineState;
use crate::key_val::PairV;
use crate::key_val::step_line;
use crate::key_val::run_lines;
use crate::key_val::parse_spec;
use crate::key_val::final_pairs;
use crate::key_val::lemma_first_nonblank_at;
use crate::key_val::continue_key;
use crate::key_val::continue_value;
use crate::key_val::emit_pair;
use crate::key_val::group_pairs;
use crate::key_val::node_of_value;
use crate::key_val::tree_insert;
use crate::key_val::NodeV;
use crate::key_val::TreeV;
use crate::parser::CclV;
use crate::parser::build_tree;
use crate::parser::empty_v;
use crate::parser::single_v;
use crate::parser::merge_v;
use crate::parser::merge_entries;
use crate::parser::nodes_ccl;
use crate::parser::node_ccl;
use crate::parser::print_v;
use crate::parser::print_entries;
use crate::parser::spaces;
use crate::parser::wf_v;
use crate::parser::wf_entries;
use crate::parser::lemma_merge_v_identity;
use crate::text::first_char;
use crate::text::indent_of;
use crate::text::trailing_ws;
use crate::text::is_blank;
use crate::text::is_space;
use crate::text::seq_lt;
use crate::text::str_lines;
use crate::text::strip_cr;
use crate::text::trim_spec;
use crate::text::trim_start_spec;
use crate::text::trim_end_spec;
use crate::text::lemma_first_char;
use crate::text::lemma_first_char_at;
use crate::text::lemma_indent_of;
use crate::text::lemma_indent_of_at;
use crate::text::lemma_trailing_ws;
use crate::text::lemma_trailing_ws_at;
use crate::text::lemma_str_lines_step;
use crate::text::lemma_str_lines_last;
use crate::text::lemma_seq_lt_asym;
use crate::text::lemma_seq_lt_irrefl;

verus! {

/// A key that the textual form preserves: no surrounding whitespace to be
/// trimmed away, no separator to split at, no line feed to break the line.
pub open spec fn clean_key(k: Seq<char>) -> bool {
    &&& trim_spec(k) == k
    &&& first_char(k, '=') == k.len()
    &&& first_char(k, '\n') == k.len()
}

/// Every key of the value, at every depth, is clean.
pub open spec fn clean_v(v: CclV) -> bool
    decreases v,
{
    forall|i: int|
        0 <= i < v.entries.len() ==> clean_key((#[trigger] v.entries[i]).0) && clean_v(
            v.entries[i].1,
        )
}

/// The one line a key occupies in the printed form.
pub open spec fn keyline(key: Seq<char>, ind: nat) -> Seq<char> {
    spaces(ind) + key + seq![' ', '=']
}

/// The printed lines of an entry sequence: for each entry its key line, then
/// the lines of its child two columns deeper.
pub open spec fn pl_entries(es: Seq<(Seq<char>, CclV)>, ind: nat) -> Seq<Seq<char>>
    decreases es,
{
    if es.len() == 0 {
        Seq::empty()
    } else {
        seq![keyline(es[0].0, ind)] + print_lines(es[0].1, ind + 2) + pl_entries(
            es.drop_first(),
            ind,
        )
    }
}

/// The printed lines of a canonical value.
pub open spec fn print_lines(v: CclV, ind: nat) -> Seq<Seq<char>>
    decreases v,
{
    pl_entries(v.entries, ind)
}

/// Lines joined with a line feed after each: the printed text.
pub open spec fn join_nl(ls: Seq<Seq<char>>) -> Seq<char>
    decreases ls.len(),
{
    if ls.len() == 0 {
        Seq::empty()
    } else {
        ls[0] + seq!['\n'] + join_nl(ls.drop_first())
    }
}

/// Lines joined with a line feed before each: the shape a nested value takes
/// inside its parent's pair.
pub open spec fn prefix_join(ls: Seq<Seq<char>>) -> Seq<char>
    decreases ls.len(),
{
    if ls.len() == 0 {
        Seq::empty()
    } else {
        prefix_join(ls.drop_last()) + seq!['\n'] + ls.last()
    }
}

/// The value the parser accumulates for a key whose child prints at the
/// given indentation.
pub open spec fn value_of(c: CclV, ind: nat) -> Seq<char> {
    prefix_join(print_lines(c, ind))
}

/// The pairs the parser produces from the printed form of an entry
/// sequence.
pub open spec fn rp_entries(es: Seq<(Seq<char>, CclV)>, ind: nat) -> Seq<PairV>
    decreases es.len(),
{
    if es.len() == 0 {
        Seq::empty()
    } else {
        seq![(es[0].0, value_of(es[0].1, ind + 2))] + rp_entries(es.drop_first(), ind)
    }
}

/// The line machine run from an arbitrary starting state.
pub open spec fn run_from(st: LineState, lines: Seq<Seq<char>>, baseline: int, n: int) -> LineState
    decreases n,
{
    if n <= 0 {
        st
    } else {
        step_line(run_from(st, lines, baseline, n - 1), lines[n - 1], baseline)
    }
}

proof fn lemma_run_is_run_from(lines: Seq<Seq<char>>, baseline: int, n: int)
    ensures
        run_lines(lines, baseline, n) == run_from(
            LineState { pairs: Seq::empty(), key_buf: Seq::empty() },
            lines,
            baseline,
            n,
        ),
    decreases n,
{
    if n > 0 {
        lemma_run_is_run_from(lines, baseline, n - 1);
    }
}

proof fn lemma_run_from_prefix(st: LineState, lsa: Seq<Seq<char>>, lsb: Seq<Seq<char>>, b: int, k: int)
    requires
        0 <= k <= lsa.len(),
    ensures
        run_from(st, lsa + lsb, b, k) == run_from(st, lsa, b, k),
    decreases k,
{
    if k > 0 {
        lemma_run_from_prefix(st, lsa, lsb, b, k - 1);
        assert((lsa + lsb)[k - 1] == lsa[k - 1]);
    }
}

proof fn lemma_run_from_append(st: LineState, lsa: Seq<Seq<char>>, lsb: Seq<Seq<char>>, b: int, m: int)
    requires
        0 <= m <= lsb.len(),
    ensures
        run_from(st, lsa + lsb, b, lsa.len() + m) == run_from(
            run_from(st, lsa, b, lsa.len() as int),
            lsb,
            b,
            m,
        ),
    decreases m,
{
    if m == 0 {
        lemma_run_from_prefix(st, lsa, lsb, b, lsa.len() as int);
    } else {
        lemma_run_from_append(st, lsa, lsb, b, m - 1);
        assert((lsa + lsb)[lsa.len() + m - 1] == lsb[m - 1]);
    }
}

/// A clean non-empty key neither starts nor ends with whitespace.
proof fn lemma_clean_key_ends(k: Seq<char>)
    requires
        clean_key(k),
        k.len() > 0,
    ensures
        !is_space(k[0]),
        !is_space(k.last()),
        trailing_ws(k) == 0,
        indent_of(k) == 0,
{
    lemma_indent_of(k);
    lemma_trailing_ws(k);
    lemma_trailing_ws(trim_start_spec(k));
    if indent_of(k) > 0 {
        assert(trim_spec(k).len() < k.len());
    }
    assert(indent_of(k) == 0);
    assert(trim_start_spec(k) =~= k);
    if trailing_ws(k) > 0 {
        assert(trim_spec(k).len() < k.len());
    }
    assert(trailing_ws(k) == 0);
}

/// The anatomy of a key line: never blank, indentation determined by the
/// key, the first separator just past the key, no trailing whitespace, no
/// line feed.
proof fn lemma_keyline_facts(key: Seq<char>, ind: nat)
    requires
        clean_key(key),
    ensures
        !is_blank(keyline(key, ind)),
        indent_of(keyline(key, ind)) == ind + (if key.len() == 0 { 1int } else { 0int }),
        first_char(keyline(key, ind), '=') == ind + key.len() + 1,
        trailing_ws(keyline(key, ind)) == 0,
        first_char(keyline(key, ind), '\n') == keyline(key, ind).len(),
        keyline(key, ind).len() == ind + key.len() + 2,
{
    let l = keyline(key, ind);
    lemma_first_char(key, '=');
    lemma_first_char(key, '\n');
    assert(l.len() == ind + key.len() + 2);
    assert(l.last() == '=');
    assert(!is_space('='));
    assert(!is_blank(l));
    lemma_trailing_ws_at(l, l.len() as int);
    if key.len() == 0 {
        assert forall|j: int| 0 <= j < ind + 1 implies is_space(#[trigger] l[j]) by {}
        assert(!is_space(l[ind as int + 1]));
        lemma_indent_of_at(l, ind as int + 1);
    } else {
        lemma_clean_key_ends(key);
        assert forall|j: int| 0 <= j < ind implies is_space(#[trigger] l[j]) by {}
        assert(l[ind as int] == key[0]);
        lemma_indent_of_at(l, ind as int);
    }
    assert forall|j: int| 0 <= j < ind + key.len() + 1 implies #[trigger] l[j] != '=' by {
        if j < ind {
            assert(l[j] == ' ');
        } else if j < ind + key.len() {
            assert(l[j] == key[j - ind]);
        } else {
            assert(l[j] == ' ');
        }
    }
    assert(l[ind as int + key.len() as int + 1] == '=');
    lemma_first_char_at(l, '=', ind as int + key.len() as int + 1);
    assert forall|j: int| 0 <= j < l.len() implies #[trigger] l[j] != '\n' by {
        if j < ind {
            assert(l[j] == ' ');
        } else if j < ind + key.len() {
            assert(l[j] == key[j - ind]);
        }
    }
    lemma_first_char_at(l, '\n', l.len() as int);
}


/// Cleanliness of an entry sequence: every key clean, every child clean.
pub open spec fn clean_entries(es: Seq<(Seq<char>, CclV)>) -> bool {
    forall|i: int|
        0 <= i < es.len() ==> clean_key((#[trigger] es[i]).0) && clean_v(es[i].1)
}

proof fn lemma_clean_entries(v: CclV)
    requires
        clean_v(v),
    ensures
        clean_entries(v.entries),
{
}

proof fn lemma_clean_entries_tail(es: Seq<(Seq<char>, CclV)>)
    requires
        clean_entries(es),
        es.len() > 0,
    ensures
        clean_entries(es.drop_first()),
{
    assert forall|i: int|
        0 <= i < es.drop_first().len() implies clean_key(
        (#[trigger] es.drop_first()[i]).0,
    ) && clean_v(es.drop_first()[i].1) by {
        assert(es.drop_first()[i] == es[i + 1]);
    }
}

/// Every printed line is non-blank, indented at least to its level, free of
/// trailing whitespace and of line feeds.
proof fn lemma_pl_entries_facts(es: Seq<(Seq<char>, CclV)>, ind: nat)
    requires
        clean_entries(es),
    ensures
        forall|i: int|
            0 <= i < pl_entries(es, ind).len() ==> {
                let l = #[trigger] pl_entries(es, ind)[i];
                &&& !is_blank(l)
                &&& indent_of(l) >= ind
                &&& trailing_ws(l) == 0
                &&& first_char(l, '\n') == l.len()
                &&& l.len() > 0
            },
    decreases es,
{
    if es.len() > 0 {
        let kl = keyline(es[0].0, ind);
        let aa = print_lines(es[0].1, ind + 2);
        let bb = pl_entries(es.drop_first(), ind);
        lemma_keyline_facts(es[0].0, ind);
        lemma_print_lines_facts(es[0].1, ind + 2);
        lemma_clean_entries_tail(es);
        lemma_pl_entries_facts(es.drop_first(), ind);
        let pl = pl_entries(es, ind);
        assert(pl == seq![kl] + aa + bb);
        assert forall|i: int|
            0 <= i < pl.len() implies {
            let l = #[trigger] pl[i];
            &&& !is_blank(l)
            &&& indent_of(l) >= ind
            &&& trailing_ws(l) == 0
            &&& first_char(l, '\n') == l.len()
            &&& l.len() > 0
        } by {
            if i == 0 {
                assert(pl[0] == kl);
            } else if i < 1 + aa.len() {
                assert(pl[i] == aa[i - 1]);
            } else {
                assert(pl[i] == bb[i - 1 - aa.len()]);
            }
        }
    }
}

proof fn lemma_print_lines_facts(v: CclV, ind: nat)
    requires
        clean_v(v),
    ensures
        forall|i: int|
            0 <= i < print_lines(v, ind).len() ==> {
                let l = #[trigger] print_lines(v, ind)[i];
                &&& !is_blank(l)
                &&& indent_of(l) >= ind
                &&& trailing_ws(l) == 0
                &&& first_char(l, '\n') == l.len()
                &&& l.len() > 0
            },
    decreases v,
{
    lemma_clean_entries(v);
    lemma_pl_entries_facts(v.entries, ind);
    assert(print_lines(v, ind) == pl_entries(v.entries, ind));
    assert forall|i: int|
        0 <= i < print_lines(v, ind).len() implies {
        let l = #[trigger] print_lines(v, ind)[i];
        &&& !is_blank(l)
        &&& indent_of(l) >= ind
        &&& trailing_ws(l) == 0
        &&& first_char(l, '\n') == l.len()
        &&& l.len() > 0
    } by {
        assert(print_lines(v, ind)[i] == pl_entries(v.entries, ind)[i]);
    }
}

/// Lines whose indentation is beyond the baseline are absorbed, one after
/// the other, into the value of the last completed pair.
proof fn lemma_run_values(st: LineState, ls: Seq<Seq<char>>, b: int, n: int)
    requires
        st.key_buf.len() == 0,
        st.pairs.len() > 0,
        0 <= n <= ls.len(),
        forall|i: int|
            0 <= i < ls.len() ==> {
                let l = #[trigger] ls[i];
                &&& !is_blank(l)
                &&& indent_of(l) > b
                &&& trailing_ws(l) == 0
            },
    ensures
        run_from(st, ls, b, n) == (LineState {
            pairs: st.pairs.update(
                st.pairs.len() - 1,
                (st.pairs.last().0, st.pairs.last().1 + prefix_join(ls.take(n))),
            ),
            key_buf: Seq::empty(),
        }),
    decreases n,
{
    let last = st.pairs.last();
    if n == 0 {
        assert(last.1 + prefix_join(ls.take(0)) =~= last.1);
        assert(st.pairs.update(st.pairs.len() - 1, (last.0, last.1)) =~= st.pairs);
        assert(st.key_buf =~= Seq::<char>::empty());
        assert(run_from(st, ls, b, 0) =~~= LineState {
            pairs: st.pairs.update(st.pairs.len() - 1, (last.0, last.1 + prefix_join(ls.take(0)))),
            key_buf: Seq::empty(),
        });
    } else {
        lemma_run_values(st, ls, b, n - 1);
        let st1 = run_from(st, ls, b, n - 1);
        let l = ls[n - 1];
        assert(trim_end_spec(l) =~= l);
        assert(st1.pairs.len() == st.pairs.len());
        assert(st1.pairs.last() == (last.0, last.1 + prefix_join(ls.take(n - 1))));
        let st2 = run_from(st, ls, b, n);
        assert(st2 == step_line(st1, l, b));
        assert(!is_blank(l));
        assert(st2.pairs == continue_value(st1.pairs, l));
        assert(ls.take(n).drop_last() =~= ls.take(n - 1));
        assert(ls.take(n).last() == ls[n - 1]);
        assert(prefix_join(ls.take(n)) == prefix_join(ls.take(n - 1)) + seq!['\n'] + l);
        assert(last.1 + prefix_join(ls.take(n - 1)) + seq!['\n'] + trim_end_spec(l) =~= last.1
            + prefix_join(ls.take(n)));
        assert(st2.pairs =~= st.pairs.update(
            st.pairs.len() - 1,
            (last.0, last.1 + prefix_join(ls.take(n))),
        ));
        assert(st2 =~~= LineState {
            pairs: st.pairs.update(st.pairs.len() - 1, (last.0, last.1 + prefix_join(ls.take(n)))),
            key_buf: Seq::empty(),
        });
    }
}

/// A key line at or below the baseline, read with an empty key buffer,
/// completes the pair of its bare key and the empty value.
proof fn lemma_step_keyline(st: LineState, key: Seq<char>, ind: nat, b: int)
    requires
        clean_key(key),
        st.key_buf.len() == 0,
        indent_of(keyline(key, ind)) <= b,
    ensures
        step_line(st, keyline(key, ind), b) == (LineState {
            pairs: st.pairs.push((key, Seq::empty())),
            key_buf: Seq::empty(),
        }),
{
    lemma_keyline_facts(key, ind);
    let l = keyline(key, ind);
    let k = ind + key.len() + 1;
    assert(first_char(l, '=') < l.len());
    let st2 = step_line(st, l, b);
    assert(st2 == emit_pair(st, l));
    let left = l.take(k as int);
    assert(left =~= spaces(ind) + key + seq![' ']);
    if key.len() == 0 {
        assert forall|j: int| 0 <= j < left.len() implies is_space(#[trigger] left[j]) by {}
        lemma_trailing_ws_at(left, 0);
        assert(trim_end_spec(left) =~= Seq::<char>::empty());
        let ck = continue_key(st.key_buf, left);
        assert(ck =~= seq!['\n']);
        lemma_indent_of_at(ck, 1);
        assert(trim_start_spec(ck) =~= Seq::<char>::empty());
        assert(trailing_ws(Seq::<char>::empty()) == 0);
        assert(trim_spec(ck) =~= key);
    } else {
        lemma_clean_key_ends(key);
        assert forall|j: int| ind + key.len() <= j < left.len() implies is_space(
            #[trigger] left[j],
        ) by {}
        assert(left[ind + key.len() - 1] == key.last());
        lemma_trailing_ws_at(left, ind as int + key.len() as int);
        assert(trim_end_spec(left) =~= spaces(ind) + key);
        let ck = continue_key(st.key_buf, left);
        assert(ck =~= seq!['\n'] + spaces(ind) + key);
        assert forall|j: int| 0 <= j < ind + 1 implies is_space(#[trigger] ck[j]) by {}
        assert(ck[ind as int + 1] == key[0]);
        lemma_indent_of_at(ck, ind as int + 1);
        assert(trim_start_spec(ck) =~= key);
        lemma_trailing_ws_at(key, key.len() as int);
        assert(trim_spec(ck) =~= key);
    }
    let right = l.skip(k as int + 1);
    assert(right =~= Seq::<char>::empty());
    assert(indent_of(right) == 0);
    assert(trailing_ws(right) == 0);
    assert(trim_spec(right) =~= Seq::<char>::empty());
    assert(st2.pairs =~= st.pairs.push((key, Seq::empty())));
    assert(st2 =~~= LineState { pairs: st.pairs.push((key, Seq::empty())), key_buf: Seq::empty() });
}

/// Running the machine over the printed lines of an entry sequence appends
/// exactly one pair per entry: the key, and the child's nested value.
proof fn lemma_run_entries(st: LineState, es: Seq<(Seq<char>, CclV)>, ind: nat, b: int)
    requires
        clean_entries(es),
        st.key_buf.len() == 0,
        ind <= b <= ind + 1,
        forall|i: int| 0 <= i < es.len() && (#[trigger] es[i]).0.len() == 0 ==> b == ind + 1,
    ensures
        run_from(st, pl_entries(es, ind), b, pl_entries(es, ind).len() as int) == (LineState {
            pairs: st.pairs + rp_entries(es, ind),
            key_buf: Seq::empty(),
        }),
    decreases es.len(),
{
    if es.len() == 0 {
        assert(st.pairs + rp_entries(es, ind) =~= st.pairs);
        assert(st.key_buf =~= Seq::<char>::empty());
        assert(st =~~= LineState { pairs: st.pairs + rp_entries(es, ind), key_buf: Seq::empty() });
    } else {
        let key = es[0].0;
        let child = es[0].1;
        let kl = keyline(key, ind);
        let aa = print_lines(child, ind + 2);
        let bb = pl_entries(es.drop_first(), ind);
        let pl = pl_entries(es, ind);
        assert(pl == seq![kl] + aa + bb);
        assert(pl =~= (seq![kl] + aa) + bb);
        lemma_keyline_facts(key, ind);
        // the key line
        assert(run_from(st, seq![kl], b, 0) == st);
        assert(seq![kl][0] == kl);
        assert(run_from(st, seq![kl], b, 1) == step_line(st, kl, b));
        if key.len() == 0 {
            assert(b == ind + 1);
        }
        lemma_step_keyline(st, key, ind, b);
        let st1 = LineState { pairs: st.pairs.push((key, Seq::empty())), key_buf: Seq::empty() };
        // the child's lines
        lemma_print_lines_facts(child, ind + 2);
        lemma_run_values(st1, aa, b, aa.len() as int);
        assert(aa.take(aa.len() as int) =~= aa);
        let p0 = (key, value_of(child, ind + 2));
        let st2 = LineState {
            pairs: st1.pairs.update(
                st1.pairs.len() - 1,
                (key, Seq::<char>::empty() + prefix_join(aa)),
            ),
            key_buf: Seq::empty(),
        };
        assert(Seq::<char>::empty() + prefix_join(aa) =~= value_of(child, ind + 2));
        assert(st2.pairs =~= st.pairs.push(p0));
        lemma_run_from_append(st, seq![kl], aa, b, aa.len() as int);
        assert(run_from(st, seq![kl] + aa, b, 1 + aa.len() as int) =~~= st2);
        // the remaining entries
        lemma_clean_entries_tail(es);
        assert forall|i: int|
            0 <= i < es.drop_first().len() && (#[trigger] es.drop_first()[i]).0.len() == 0 implies b
            == ind + 1 by {
            assert(es.drop_first()[i] == es[i + 1]);
        }
        let st2g = LineState { pairs: st.pairs.push(p0), key_buf: Seq::empty() };
        assert(st2 =~~= st2g);
        lemma_run_entries(st2g, es.drop_first(), ind, b);
        lemma_run_from_append(st, seq![kl] + aa, bb, b, bb.len() as int);
        assert((seq![kl] + aa).len() + bb.len() == pl.len());
        assert(run_from(st, pl, b, pl.len() as int) == run_from(st2g, bb, b, bb.len() as int));
        assert(rp_entries(es, ind) == seq![p0] + rp_entries(es.drop_first(), ind));
        assert(st.pairs.push(p0) + rp_entries(es.drop_first(), ind) =~= st.pairs + rp_entries(
            es,
            ind,
        ));
        assert(run_from(st, pl, b, pl.len() as int) =~~= LineState {
            pairs: st.pairs + rp_entries(es, ind),
            key_buf: Seq::empty(),
        });
    }
}


proof fn lemma_join_nl_concat(x: Seq<Seq<char>>, y: Seq<Seq<char>>)
    ensures
        join_nl(x + y) == join_nl(x) + join_nl(y),
    decreases x.len(),
{
    if x.len() == 0 {
        assert(x + y =~= y);
        assert(join_nl(x) + join_nl(y) =~= join_nl(y));
    } else {
        lemma_join_nl_concat(x.drop_first(), y);
        assert((x + y).drop_first() =~= x.drop_first() + y);
        assert((x + y)[0] == x[0]);
        assert(x[0] + seq!['\n'] + (join_nl(x.drop_first()) + join_nl(y)) =~= (x[0] + seq!['\n']
            + join_nl(x.drop_first())) + join_nl(y));
    }
}

/// The printed text is its lines joined by line feeds.
proof fn lemma_print_join_entries(es: Seq<(Seq<char>, CclV)>, ind: nat)
    ensures
        print_entries(es, ind) == join_nl(pl_entries(es, ind)),
    decreases es,
{
    if es.len() == 0 {
    } else {
        let kl = keyline(es[0].0, ind);
        let aa = print_lines(es[0].1, ind + 2);
        let bb = pl_entries(es.drop_first(), ind);
        lemma_print_join(es[0].1, ind + 2);
        lemma_print_join_entries(es.drop_first(), ind);
        lemma_join_nl_concat(seq![kl] + aa, bb);
        lemma_join_nl_concat(seq![kl], aa);
        assert(seq![kl].drop_first() =~= Seq::<Seq<char>>::empty());
        assert(seq![kl][0] == kl);
        assert(join_nl(Seq::<Seq<char>>::empty()) == Seq::<char>::empty());
        assert(join_nl(seq![kl]) =~= kl + seq!['\n']);
        assert(pl_entries(es, ind) =~= (seq![kl] + aa) + bb);
        assert(print_entries(es, ind) == spaces(ind) + es[0].0 + seq![' ', '=', '\n'] + print_v(
            es[0].1,
            ind + 2,
        ) + print_entries(es.drop_first(), ind));
        assert(spaces(ind) + es[0].0 + seq![' ', '=', '\n'] =~= kl + seq!['\n']);
        assert(print_entries(es, ind) =~= join_nl(pl_entries(es, ind)));
    }
}

proof fn lemma_print_join(v: CclV, ind: nat)
    ensures
        print_v(v, ind) == join_nl(print_lines(v, ind)),
    decreases v,
{
    lemma_print_join_entries(v.entries, ind);
}

/// `str_lines` undoes `join_nl` for lines without line feeds or trailing
/// whitespace.
proof fn lemma_str_lines_join(ls: Seq<Seq<char>>)
    requires
        forall|i: int|
            0 <= i < ls.len() ==> {
                let l = #[trigger] ls[i];
                &&& first_char(l, '\n') == l.len()
                &&& trailing_ws(l) == 0
                &&& l.len() > 0
            },
    ensures
        str_lines(join_nl(ls)) == ls,
    decreases ls.len(),
{
    if ls.len() == 0 {
        lemma_str_lines_last(Seq::empty());
        assert(str_lines(join_nl(ls)) =~= ls);
    } else {
        let l0 = ls[0];
        let text = join_nl(ls);
        assert(text == l0 + seq!['\n'] + join_nl(ls.drop_first()));
        lemma_first_char(l0, '\n');
        assert forall|j: int| 0 <= j < l0.len() implies #[trigger] text[j] != '\n' by {
            assert(text[j] == l0[j]);
        }
        assert(text[l0.len() as int] == '\n');
        lemma_first_char_at(text, '\n', l0.len() as int);
        lemma_str_lines_step(text);
        assert(text.take(l0.len() as int) =~= l0);
        assert(text.skip(l0.len() as int + 1) =~= join_nl(ls.drop_first()));
        lemma_trailing_ws(l0);
        assert(!is_space(l0.last()));
        assert(l0.last() != '\r');
        assert(strip_cr(l0) == l0);
        assert forall|i: int|
            0 <= i < ls.drop_first().len() implies {
            let l = #[trigger] ls.drop_first()[i];
            &&& first_char(l, '\n') == l.len()
            &&& trailing_ws(l) == 0
            &&& l.len() > 0
        } by {
            assert(ls.drop_first()[i] == ls[i + 1]);
        }
        lemma_str_lines_join(ls.drop_first());
        assert(str_lines(text) =~= ls);
    }
}

proof fn lemma_prefix_join_front(ls: Seq<Seq<char>>)
    requires
        ls.len() > 0,
    ensures
        prefix_join(ls) == seq!['\n'] + ls[0] + prefix_join(ls.drop_first()),
    decreases ls.len(),
{
    if ls.len() == 1 {
        assert(ls.drop_last() =~= Seq::<Seq<char>>::empty());
        assert(ls.drop_first() =~= Seq::<Seq<char>>::empty());
        assert(prefix_join(ls) =~= seq!['\n'] + ls[0] + prefix_join(ls.drop_first()));
    } else {
        lemma_prefix_join_front(ls.drop_last());
        assert(ls.drop_last()[0] == ls[0]);
        assert(ls.drop_last().drop_first() =~= ls.drop_first().drop_last());
        assert(ls.drop_first().last() == ls.last());
        assert(prefix_join(ls) == prefix_join(ls.drop_last()) + seq!['\n'] + ls.last());
        assert(prefix_join(ls.drop_first()) == prefix_join(ls.drop_first().drop_last()) + seq![
            '\n',
        ] + ls.drop_first().last());
        assert((seq!['\n'] + ls[0] + prefix_join(ls.drop_first().drop_last())) + seq!['\n']
            + ls.last() =~= seq!['\n'] + ls[0] + (prefix_join(ls.drop_first().drop_last()) + seq![
            '\n',
        ] + ls.last()));
    }
}

/// `str_lines` of a line prefixed to a nested-value text.
proof fn lemma_str_lines_prefix_join(ls: Seq<Seq<char>>)
    requires
        forall|i: int|
            0 <= i < ls.len() ==> {
                let l = #[trigger] ls[i];
                &&& first_char(l, '\n') == l.len()
                &&& trailing_ws(l) == 0
                &&& l.len() > 0
            },
        ls.len() > 0,
    ensures
        str_lines(ls[0] + prefix_join(ls.drop_first())) == ls,
    decreases ls.len(),
{
    let rest = ls.drop_first();
    let text = ls[0] + prefix_join(rest);
    if ls.len() == 1 {
        assert(rest =~= Seq::<Seq<char>>::empty());
        assert(text =~= ls[0]);
        lemma_first_char(ls[0], '\n');
        lemma_str_lines_last(ls[0]);
        assert(str_lines(text) =~= ls);
    } else {
        lemma_prefix_join_front(rest);
        assert(text =~= ls[0] + (seq!['\n'] + rest[0] + prefix_join(rest.drop_first())));
        lemma_first_char(ls[0], '\n');
        assert forall|j: int| 0 <= j < ls[0].len() implies #[trigger] text[j] != '\n' by {
            assert(text[j] == ls[0][j]);
        }
        assert(text[ls[0].len() as int] == '\n');
        lemma_first_char_at(text, '\n', ls[0].len() as int);
        lemma_str_lines_step(text);
        assert(text.take(ls[0].len() as int) =~= ls[0]);
        assert(text.skip(ls[0].len() as int + 1) =~= rest[0] + prefix_join(rest.drop_first()));
        lemma_trailing_ws(ls[0]);
        assert(!is_space(ls[0].last()));
        assert(strip_cr(ls[0]) == ls[0]);
        assert forall|i: int|
            0 <= i < rest.len() implies {
            let l = #[trigger] rest[i];
            &&& first_char(l, '\n') == l.len()
            &&& trailing_ws(l) == 0
            &&& l.len() > 0
        } by {
            assert(rest[i] == ls[i + 1]);
        }
        lemma_str_lines_prefix_join(rest);
        assert(str_lines(text) =~= ls);
    }
}

/// A sorted entry sequence can carry the empty key only in front.
proof fn lemma_empty_key_first(es: Seq<(Seq<char>, CclV)>)
    requires
        wf_entries(es),
    ensures
        forall|i: int| 1 <= i < es.len() ==> (#[trigger] es[i]).0.len() > 0,
{
    assert forall|i: int| 1 <= i < es.len() implies (#[trigger] es[i]).0.len() > 0 by {
        assert(seq_lt(es[0].0, es[i].0));
    }
}

/// The baseline of the printed form: one deeper than the level exactly when
/// the first key is empty.
pub open spec fn bl(es: Seq<(Seq<char>, CclV)>, ind: nat) -> int
    recommends
        es.len() > 0,
{
    if es[0].0.len() == 0 {
        ind + 1int
    } else {
        ind as int
    }
}

/// Pair views produced from printed entries: one per entry, in order.
proof fn lemma_rp_index(es: Seq<(Seq<char>, CclV)>, ind: nat)
    ensures
        rp_entries(es, ind).len() == es.len(),
        forall|i: int|
            0 <= i < es.len() ==> rp_entries(es, ind)[i] == ((#[trigger] es[i]).0, value_of(
                es[i].1,
                ind + 2,
            )),
    decreases es.len(),
{
    if es.len() > 0 {
        lemma_rp_index(es.drop_first(), ind);
        assert forall|i: int|
            0 <= i < es.len() implies rp_entries(es, ind)[i] == ((#[trigger] es[i]).0, value_of(
            es[i].1,
            ind + 2,
        )) by {
            if i > 0 {
                assert(rp_entries(es, ind)[i] == rp_entries(es.drop_first(), ind)[i - 1]);
                assert(es.drop_first()[i - 1] == es[i]);
            }
        }
    }
}

/// Values produced from printed entries carry no trailing whitespace.
proof fn lemma_value_of_no_trailing(c: CclV, ind: nat)
    requires
        clean_v(c),
    ensures
        trim_end_spec(value_of(c, ind)) == value_of(c, ind),
{
    let ls = print_lines(c, ind);
    lemma_print_lines_facts(c, ind);
    let v = value_of(c, ind);
    if ls.len() == 0 {
        assert(v =~= Seq::<char>::empty());
        assert(trailing_ws(v) == 0);
        assert(trim_end_spec(v) =~= v);
    } else {
        assert(v == prefix_join(ls.drop_last()) + seq!['\n'] + ls.last());
        assert(ls.last().len() > 0);
        lemma_trailing_ws(ls.last());
        assert(!is_space(ls.last().last()));
        assert(v.last() == ls.last().last());
        lemma_trailing_ws(v);
        if trailing_ws(v) > 0 {
            assert(is_space(v[v.len() - 1]));
        }
        assert(trim_end_spec(v) =~= v);
    }
}

/// Parsing the printed form of a non-empty canonical value yields one pair
/// per entry, in key order.
proof fn lemma_parse_print_top(v: CclV)
    requires
        wf_v(v),
        clean_v(v),
        v.entries.len() > 0,
    ensures
        parse_spec(print_v(v, 0)) == Ok::<Seq<PairV>, Seq<char>>(rp_entries(v.entries, 0)),
{
    let ls = print_lines(v, 0);
    lemma_print_join(v, 0);
    lemma_print_lines_facts(v, 0);
    lemma_str_lines_join(ls);
    assert(str_lines(print_v(v, 0)) == ls);
    assert(ls.len() > 0);
    lemma_keyline_facts(v.entries[0].0, 0);
    assert(ls[0] == keyline(v.entries[0].0, 0));
    lemma_first_nonblank_at(ls, 0);
    assert(ls.skip(0) =~= ls);
    let b = indent_of(ls[0]);
    assert(b == bl(v.entries, 0));
    lemma_empty_key_first(v.entries);
    lemma_clean_entries(v);
    let init = LineState { pairs: Seq::empty(), key_buf: Seq::empty() };
    lemma_run_is_run_from(ls, b, ls.len() as int);
    lemma_run_entries(init, v.entries, 0, b);
    let st = run_lines(ls, b, ls.len() as int);
    assert(st.pairs =~= rp_entries(v.entries, 0));
    assert(st.key_buf.len() == 0);
    let fp = final_pairs(st);
    lemma_rp_index(v.entries, 0);
    assert forall|i: int| 0 <= i < fp.len() implies fp[i] == st.pairs[i] by {
        lemma_value_of_no_trailing(v.entries[i].1, 2);
        assert(st.pairs[i] == (v.entries[i].0, value_of(v.entries[i].1, 2)));
    }
    assert(fp =~= rp_entries(v.entries, 0));
}

/// Parsing the nested textual form of a non-empty canonical value yields one
/// pair per entry, in key order.
proof fn lemma_parse_value(c: CclV, ind: nat)
    requires
        wf_v(c),
        clean_v(c),
        c.entries.len() > 0,
    ensures
        parse_spec(value_of(c, ind)) == Ok::<Seq<PairV>, Seq<char>>(rp_entries(c.entries, ind)),
{
    let ls = print_lines(c, ind);
    lemma_print_lines_facts(c, ind);
    let text = value_of(c, ind);
    assert(ls.len() > 0);
    lemma_prefix_join_front(ls);
    assert(text == seq!['\n'] + ls[0] + prefix_join(ls.drop_first()));
    let inner = ls[0] + prefix_join(ls.drop_first());
    assert(text =~= seq!['\n'] + inner);
    // the leading line feed contributes one empty first line
    assert(text[0] == '\n');
    lemma_first_char_at(text, '\n', 0);
    lemma_str_lines_step(text);
    assert(text.take(0) =~= Seq::<char>::empty());
    assert(strip_cr(Seq::<char>::empty()) =~= Seq::<char>::empty());
    assert(text.skip(1) =~= inner);
    lemma_str_lines_prefix_join(ls);
    let lines = str_lines(text);
    assert(lines =~= seq![Seq::<char>::empty()] + ls);
    assert(is_blank(lines[0]));
    lemma_keyline_facts(c.entries[0].0, ind);
    assert(lines[1] == keyline(c.entries[0].0, ind));
    assert(!is_blank(lines[1]));
    lemma_first_nonblank_at(lines, 1);
    let rest = lines.skip(1);
    assert(rest =~= ls);
    assert(ls[0] == keyline(c.entries[0].0, ind));
    let b = indent_of(ls[0]);
    assert(b == bl(c.entries, ind));
    lemma_empty_key_first(c.entries);
    lemma_clean_entries(c);
    let init = LineState { pairs: Seq::empty(), key_buf: Seq::empty() };
    lemma_run_is_run_from(ls, b, ls.len() as int);
    lemma_run_entries(init, c.entries, ind, b);
    let st = run_lines(ls, b, ls.len() as int);
    assert(st.pairs =~= rp_entries(c.entries, ind));
    assert(st.key_buf.len() == 0);
    let fp = final_pairs(st);
    lemma_rp_index(c.entries, ind);
    assert forall|i: int| 0 <= i < fp.len() implies fp[i] == st.pairs[i] by {
        lemma_value_of_no_trailing(c.entries[i].1, ind + 2);
        assert(st.pairs[i] == (c.entries[i].0, value_of(c.entries[i].1, ind + 2)));
    }
    assert(fp =~= rp_entries(c.entries, ind));
}


/// Inserting under a key above every key of the tree appends a new entry.
proof fn lemma_tree_insert_append(t: TreeV, k: Seq<char>, n: NodeV)
    requires
        forall|i: int| 0 <= i < t.len() ==> seq_lt((#[trigger] t[i]).0, k),
    ensures
        tree_insert(t, k, n) == t.push((k, seq![n])),
    decreases t.len(),
{
    if t.len() == 0 {
        assert(tree_insert(t, k, n) =~= t.push((k, seq![n])));
    } else {
        assert(seq_lt(t[0].0, k));
        lemma_seq_lt_asym(k, t[0].0);
        lemma_seq_lt_irrefl(t[0].0);
        assert(k != t[0].0);
        let td = t.drop_first();
        assert forall|i: int| 0 <= i < td.len() implies seq_lt((#[trigger] td[i]).0, k) by {
            assert(td[i] == t[i + 1]);
        }
        lemma_tree_insert_append(td, k, n);
        assert(tree_insert(t, k, n) == seq![t[0]] + td.push((k, seq![n])));
        assert(seq![t[0]] + td.push((k, seq![n])) =~= t.push((k, seq![n])));
    }
}

/// Grouping pairs with strictly ascending keys yields one single-node entry
/// per pair, in order.
proof fn lemma_group_ascending(ps: Seq<PairV>)
    requires
        forall|i: int, j: int|
            0 <= i < j < ps.len() ==> #[trigger] seq_lt(ps[i].0, ps[j].0),
    ensures
        group_pairs(ps).len() == ps.len(),
        forall|i: int|
            0 <= i < ps.len() ==> group_pairs(ps)[i] == ((#[trigger] ps[i]).0, seq![
                node_of_value(ps[i].1),
            ]),
    decreases ps.len(),
{
    if ps.len() > 0 {
        let pd = ps.drop_last();
        assert forall|i: int, j: int| 0 <= i < j < pd.len() implies #[trigger] seq_lt(
            pd[i].0,
            pd[j].0,
        ) by {
            assert(pd[i] == ps[i]);
            assert(pd[j] == ps[j]);
            assert(seq_lt(ps[i].0, ps[j].0));
        }
        lemma_group_ascending(pd);
        let td = group_pairs(pd);
        assert forall|i: int| 0 <= i < td.len() implies seq_lt(
            (#[trigger] td[i]).0,
            ps.last().0,
        ) by {
            assert(td[i] == (pd[i].0, seq![node_of_value(pd[i].1)]));
            assert(pd[i] == ps[i]);
            assert(seq_lt(ps[i].0, ps[ps.len() - 1].0));
        }
        lemma_tree_insert_append(td, ps.last().0, node_of_value(ps.last().1));
        assert(group_pairs(ps) == td.push((ps.last().0, seq![node_of_value(ps.last().1)])));
        assert forall|i: int|
            0 <= i < ps.len() implies group_pairs(ps)[i] == ((#[trigger] ps[i]).0, seq![
            node_of_value(ps[i].1),
        ]) by {
            if i < ps.len() - 1 {
                assert(group_pairs(ps)[i] == td[i]);
                assert(pd[i] == ps[i]);
            }
        }
    }
}

/// Merging a one-key value whose key is above every existing key appends its
/// entry.
proof fn lemma_merge_append_entries(es: Seq<(Seq<char>, CclV)>, e: (Seq<char>, CclV))
    requires
        forall|i: int| 0 <= i < es.len() ==> seq_lt((#[trigger] es[i]).0, e.0),
    ensures
        merge_entries(es, seq![e]) == es.push(e),
    decreases es.len(),
{
    if es.len() == 0 {
        assert(merge_entries(es, seq![e]) == seq![e]);
        assert(seq![e] =~= es.push(e));
    } else {
        assert(seq![e][0] == e);
        assert(seq_lt(es[0].0, e.0));
        let ed = es.drop_first();
        assert forall|i: int| 0 <= i < ed.len() implies seq_lt((#[trigger] ed[i]).0, e.0) by {
            assert(ed[i] == es[i + 1]);
        }
        lemma_merge_append_entries(ed, e);
        assert(merge_entries(es, seq![e]) == seq![es[0]] + ed.push(e));
        assert(seq![es[0]] + ed.push(e) =~= es.push(e));
    }
}

/// Building a tree of single-node entries whose contributions are the wanted
/// one-key values reassembles exactly the wanted entry sequence.
proof fn lemma_build_singles(t: TreeV, es: Seq<(Seq<char>, CclV)>)
    requires
        wf_entries(es),
        t.len() == es.len(),
        forall|i: int|
            0 <= i < t.len() ==> (#[trigger] t[i]).0 == es[i].0 && t[i].1.len() == 1 && node_ccl(
                t[i].0,
                t[i].1[0],
            ) == single_v(es[i].0, es[i].1),
    ensures
        build_tree(t) == (CclV { entries: es }),
    decreases t.len(),
{
    if t.len() == 0 {
        assert(es =~= Seq::<(Seq<char>, CclV)>::empty());
        assert(build_tree(t) =~= CclV { entries: es });
    } else {
        let td = t.drop_last();
        let ed = es.drop_last();
        assert forall|i: int, j: int| 0 <= i < j < ed.len() implies #[trigger] seq_lt(
            ed[i].0,
            ed[j].0,
        ) by {
            assert(ed[i] == es[i]);
            assert(ed[j] == es[j]);
        }
        assert forall|i: int| 0 <= i < ed.len() implies wf_v((#[trigger] ed[i]).1) by {
            assert(ed[i] == es[i]);
        }
        assert forall|i: int|
            0 <= i < td.len() implies (#[trigger] td[i]).0 == ed[i].0 && td[i].1.len() == 1
            && node_ccl(td[i].0, td[i].1[0]) == single_v(ed[i].0, ed[i].1) by {
            assert(td[i] == t[i]);
            assert(ed[i] == es[i]);
        }
        lemma_build_singles(td, ed);
        let k = t.last().0;
        let nd = t.last().1[0];
        assert(t.last().1 =~= seq![nd]);
        assert(build_tree(t) == merge_v(build_tree(td), nodes_ccl(k, t.last().1)));
        assert(seq![nd].drop_last() =~= Seq::<NodeV>::empty());
        assert(seq![nd].last() == nd);
        assert(nodes_ccl(k, Seq::<NodeV>::empty()) == empty_v());
        assert(nodes_ccl(k, seq![nd]) == merge_v(empty_v(), node_ccl(k, nd)));
        lemma_merge_v_identity(node_ccl(k, nd));
        assert(t.last() == t[t.len() - 1]);
        assert(es.last() == es[es.len() - 1]);
        assert(nodes_ccl(k, t.last().1) == single_v(es.last().0, es.last().1));
        assert forall|i: int| 0 <= i < ed.len() implies seq_lt(
            (#[trigger] ed[i]).0,
            es.last().0,
        ) by {
            assert(ed[i] == es[i]);
            assert(seq_lt(es[i].0, es[es.len() - 1].0));
        }
        lemma_merge_append_entries(ed, (es.last().0, es.last().1));
        assert((es.last().0, es.last().1) == es.last());
        assert(merge_v(CclV { entries: ed }, single_v(es.last().0, es.last().1)).entries
            == merge_entries(ed, seq![es.last()]));
        assert(ed.push(es.last()) =~= es);
        assert(build_tree(t).entries == es);
        assert(build_tree(t) =~= CclV { entries: es });
    }
}

/// Parsing, grouping and rebuilding the nested textual form of a clean,
/// well-formed value reproduces the value.
proof fn lemma_build_group(v: CclV, ind: nat)
    requires
        wf_v(v),
        clean_v(v),
    ensures
        v.entries.len() > 0 ==> parse_spec(value_of(v, ind)) == Ok::<Seq<PairV>, Seq<char>>(
            rp_entries(v.entries, ind),
        ),
        build_tree(group_pairs(rp_entries(v.entries, ind))) == v,
    decreases v,
{
    if v.entries.len() > 0 {
        lemma_parse_value(v, ind);
    }
    let es = v.entries;
    let ps = rp_entries(es, ind);
    lemma_rp_index(es, ind);
    assert forall|i: int, j: int| 0 <= i < j < ps.len() implies #[trigger] seq_lt(
        ps[i].0,
        ps[j].0,
    ) by {
        assert(ps[i] == (es[i].0, value_of(es[i].1, ind + 2)));
        assert(ps[j] == (es[j].0, value_of(es[j].1, ind + 2)));
        assert(seq_lt(es[i].0, es[j].0));
    }
    lemma_group_ascending(ps);
    let t = group_pairs(ps);
    assert forall|i: int|
        0 <= i < t.len() implies (#[trigger] t[i]).0 == es[i].0 && t[i].1.len() == 1 && node_ccl(
        t[i].0,
        t[i].1[0],
    ) == single_v(es[i].0, es[i].1) by {
        assert(t[i] == (ps[i].0, seq![node_of_value(ps[i].1)]));
        assert(ps[i] == (es[i].0, value_of(es[i].1, ind + 2)));
        let child = es[i].1;
        assert(clean_key(es[i].0) && clean_v(child));
        assert(wf_v(child));
        let nd = node_of_value(value_of(child, ind + 2));
        if child.entries.len() == 0 {
            assert(pl_entries(child.entries, ind + 2) == Seq::<Seq<char>>::empty());
            assert(value_of(child, ind + 2) =~= Seq::<char>::empty());
            crate::key_val::lemma_parse_whitespace_only(Seq::<char>::empty());
            assert(parse_spec(value_of(child, ind + 2)) == Ok::<Seq<PairV>, Seq<char>>(
                Seq::empty(),
            ));
            assert(nd == NodeV::Leaf(value_of(child, ind + 2)));
            assert(node_ccl(es[i].0, nd) == single_v(es[i].0, empty_v()));
            assert(child.entries =~= Seq::<(Seq<char>, CclV)>::empty());
            assert(child.entries == empty_v().entries);
            assert(child =~= empty_v());
        } else {
            assert(decreases_to!(v => v.entries));
            assert(decreases_to!(v.entries => v.entries[i]));
            assert(decreases_to!(v.entries[i] => v.entries[i].1));
            lemma_build_group(child, (ind + 2) as nat);
            assert(parse_spec(value_of(child, ind + 2)) == Ok::<Seq<PairV>, Seq<char>>(
                rp_entries(child.entries, ind + 2),
            ));
            lemma_rp_index(child.entries, ind + 2);
            assert(rp_entries(child.entries, ind + 2).len() > 0);
            assert(nd == NodeV::Tree(group_pairs(rp_entries(child.entries, ind + 2))));
            assert(node_ccl(es[i].0, nd) == single_v(
                es[i].0,
                build_tree(group_pairs(rp_entries(child.entries, ind + 2))),
            ));
        }
    }
    assert(t.len() == es.len());
    lemma_build_singles(t, es);
    assert(v == CclV { entries: v.entries });
    assert(build_tree(t) == v);
}

/// The round-trip law: printing a well-formed canonical value whose keys
/// carry no surrounding whitespace, no separator and no line feed, then
/// parsing, grouping and rebuilding the text, reproduces the value exactly.
pub proof fn lemma_round_trip(v: CclV)
    requires
        wf_v(v),
        clean_v(v),
    ensures
        parse_spec(print_v(v, 0)) matches Ok(ps) && build_tree(group_pairs(ps)) == v,
{
    if v.entries.len() == 0 {
        assert(print_v(v, 0) == Seq::<char>::empty());
        crate::key_val::lemma_parse_whitespace_only(Seq::<char>::empty());
        assert(parse_spec(print_v(v, 0)) == Ok::<Seq<PairV>, Seq<char>>(Seq::empty()));
        assert(group_pairs(Seq::<PairV>::empty()) == Seq::<(Seq<char>, Seq<NodeV>)>::empty());
        assert(build_tree(Seq::<(Seq<char>, Seq<NodeV>)>::empty()) == empty_v());
        assert(v.entries =~= Seq::<(Seq<char>, CclV)>::empty());
        assert(v.entries == empty_v().entries);
        assert(v =~= empty_v());
    } else {
        lemma_parse_print_top(v);
        lemma_build_group(v, 0);
    }
}

} // verus!
