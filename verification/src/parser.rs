//! The canonical form: a recursive map from keys to canonical values, with
//! keys in lexicographic order. A scalar is a key whose child is the empty
//! map, so the empty map is the only terminal case. Canonical values form a
//! monoid under `merge`, which unions the key sets and merges the children
//! of colliding keys recursively.

use vstd::prelude::*;
use crate::monoid::Monoid;
use crate::key_val::KeyVal;
use crate::key_val::KeyValNode;
use crate::key_val::KeyValTree;
use crate::key_val::KeyVals;
use crate::text::Cmp;
use crate::text::seq_lt;
use crate::text::str_cmp;
use crate::text::string_from_chars;
use crate::text::lemma_seq_lt_trans;

verus! {

broadcast use vstd::std_specs::vec::group_vec_axioms;

/// A canonical value: an ordered map from key to canonical value.
#[derive(Debug)]
pub struct CCL {
    pub entries: Vec<(String, CCL)>,
}

/// The mathematical form of a canonical value.
#[verifier::ext_equal]
pub struct CclV {
    pub entries: Seq<(Seq<char>, CclV)>,
}

/// The mathematical form of an entry vector.
pub open spec fn entries_view(s: Seq<(String, CCL)>) -> Seq<(Seq<char>, CclV)>
    decreases s,
{
    if s.len() == 0 {
        Seq::empty()
    } else {
        entries_view(s.drop_last()).push((s.last().0@, ccl_view(s.last().1)))
    }
}

pub open spec fn ccl_view(c: CCL) -> CclV
    decreases c,
{
    CclV { entries: entries_view(c.entries@) }
}

/// `entries_view` is the elementwise view of the entry vector.
pub broadcast proof fn lemma_entries_view(s: Seq<(String, CCL)>)
    ensures
        (#[trigger] entries_view(s)).len() == s.len(),
        forall|i: int|
            0 <= i < s.len() ==> entries_view(s)[i] == (s[i].0@, ccl_view(s[i].1)),
    decreases s.len(),
{
    if s.len() > 0 {
        lemma_entries_view(s.drop_last());
        assert(s.drop_last().len() == s.len() - 1);
        assert forall|i: int|
            0 <= i < s.len() implies entries_view(s)[i] == (s[i].0@, ccl_view(s[i].1)) by {
            if i < s.len() - 1 {
                assert(s.drop_last()[i] == s[i]);
            }
        }
    }
}

impl View for CCL {
    type V = CclV;

    open spec fn view(&self) -> CclV {
        ccl_view(*self)
    }
}

/// The canonical value with no keys: the identity of merge and the only
/// terminal case of the recursion.
pub open spec fn empty_v() -> CclV {
    CclV { entries: Seq::empty() }
}

/// The canonical value with one key.
pub open spec fn single_v(key: Seq<char>, child: CclV) -> CclV {
    CclV { entries: seq![(key, child)] }
}

/// Entries are well-formed when their keys are strictly increasing in the
/// lexicographic order and every child is well-formed.
pub open spec fn wf_entries(es: Seq<(Seq<char>, CclV)>) -> bool
    decreases es,
{
    &&& (forall|i: int, j: int|
        0 <= i < j < es.len() ==> #[trigger] seq_lt(es[i].0, es[j].0))
    &&& (forall|i: int| 0 <= i < es.len() ==> wf_v(#[trigger] es[i].1))
}

pub open spec fn wf_v(v: CclV) -> bool
    decreases v,
{
    wf_entries(v.entries)
}

/// Merge two well-ordered entry sequences: the union of the key sets, with
/// the children of a key both sides share merged recursively.
pub open spec fn merge_entries(
    ea: Seq<(Seq<char>, CclV)>,
    eb: Seq<(Seq<char>, CclV)>,
) -> Seq<(Seq<char>, CclV)>
    decreases ea, eb,
{
    if ea.len() == 0 {
        eb
    } else if eb.len() == 0 {
        ea
    } else if seq_lt(ea[0].0, eb[0].0) {
        seq![ea[0]] + merge_entries(ea.drop_first(), eb)
    } else if seq_lt(eb[0].0, ea[0].0) {
        seq![eb[0]] + merge_entries(ea, eb.drop_first())
    } else {
        seq![(ea[0].0, merge_v(ea[0].1, eb[0].1))] + merge_entries(ea.drop_first(), eb.drop_first())
    }
}

/// The merge of two canonical values.
pub open spec fn merge_v(a: CclV, b: CclV) -> CclV
    decreases a, b,
{
    CclV { entries: merge_entries(a.entries, b.entries) }
}

/// A well-ordered entry sequence stays well-ordered when its first entry is
/// dropped.
pub proof fn lemma_wf_entries_tail(es: Seq<(Seq<char>, CclV)>)
    requires
        wf_entries(es),
        es.len() > 0,
    ensures
        wf_entries(es.drop_first()),
{
    let t = es.drop_first();
    assert(t.len() == es.len() - 1);
    assert forall|i: int, j: int| 0 <= i < j < t.len() implies #[trigger] seq_lt(
        t[i].0,
        t[j].0,
    ) by {
        assert(t[i] == es[i + 1]);
        assert(t[j] == es[j + 1]);
    }
    assert forall|i: int| 0 <= i < t.len() implies wf_v(#[trigger] t[i].1) by {
        assert(t[i] == es[i + 1]);
    }
}

/// An entry whose key is below the first key of a well-ordered sequence can
/// be placed in front of it.
pub proof fn lemma_wf_cons(e: (Seq<char>, CclV), rest: Seq<(Seq<char>, CclV)>)
    requires
        wf_entries(rest),
        wf_v(e.1),
        rest.len() > 0 ==> seq_lt(e.0, rest[0].0),
    ensures
        wf_entries(seq![e] + rest),
{
    let m = seq![e] + rest;
    assert forall|i: int, j: int| 0 <= i < j < m.len() implies #[trigger] seq_lt(
        m[i].0,
        m[j].0,
    ) by {
        assert(m[j] == rest[j - 1]);
        if i == 0 {
            if j > 1 {
                assert(seq_lt(rest[0].0, rest[j - 1].0));
                lemma_seq_lt_trans(e.0, rest[0].0, rest[j - 1].0);
            }
        } else {
            assert(m[i] == rest[i - 1]);
        }
    }
    assert forall|i: int| 0 <= i < m.len() implies wf_v(#[trigger] m[i].1) by {
        if i > 0 {
            assert(m[i] == rest[i - 1]);
        }
    }
}

/// Merging well-ordered entries yields well-ordered entries, whose first key
/// is the first key of one of the two sides.
pub proof fn lemma_merge_entries_wf(ea: Seq<(Seq<char>, CclV)>, eb: Seq<(Seq<char>, CclV)>)
    requires
        wf_entries(ea),
        wf_entries(eb),
    ensures
        wf_entries(merge_entries(ea, eb)),
        merge_entries(ea, eb).len() > 0 ==> ((ea.len() > 0 && merge_entries(ea, eb)[0].0 == ea[0].0)
            || (eb.len() > 0 && merge_entries(ea, eb)[0].0 == eb[0].0)),
    decreases ea, eb,
{
    let m = merge_entries(ea, eb);
    if ea.len() == 0 || eb.len() == 0 {
    } else {
        let a0 = ea[0];
        let b0 = eb[0];
        lemma_wf_entries_tail(ea);
        lemma_wf_entries_tail(eb);
        if ea.drop_first().len() > 0 {
            assert(ea.drop_first()[0] == ea[1]);
            assert(seq_lt(ea[0].0, ea[1].0));
        }
        if eb.drop_first().len() > 0 {
            assert(eb.drop_first()[0] == eb[1]);
            assert(seq_lt(eb[0].0, eb[1].0));
        }
        if seq_lt(a0.0, b0.0) {
            lemma_merge_entries_wf(ea.drop_first(), eb);
            let rest = merge_entries(ea.drop_first(), eb);
            if rest.len() > 0 {
                assert(seq_lt(a0.0, rest[0].0));
            }
            lemma_wf_cons(a0, rest);
        } else if seq_lt(b0.0, a0.0) {
            lemma_merge_entries_wf(ea, eb.drop_first());
            let rest = merge_entries(ea, eb.drop_first());
            if rest.len() > 0 {
                assert(seq_lt(b0.0, rest[0].0));
            }
            lemma_wf_cons(b0, rest);
        } else {
            crate::text::lemma_seq_lt_connected(a0.0, b0.0);
            assert(a0.0 == b0.0);
            lemma_merge_entries_wf(ea.drop_first(), eb.drop_first());
            lemma_merge_v_wf(a0.1, b0.1);
            let rest = merge_entries(ea.drop_first(), eb.drop_first());
            let h = (a0.0, merge_v(a0.1, b0.1));
            if rest.len() > 0 {
                assert(seq_lt(h.0, rest[0].0));
            }
            lemma_wf_cons(h, rest);
        }
    }
}

/// The merge of two well-formed canonical values is well-formed.
pub proof fn lemma_merge_v_wf(a: CclV, b: CclV)
    requires
        wf_v(a),
        wf_v(b),
    ensures
        wf_v(merge_v(a, b)),
    decreases a, b,
{
    lemma_merge_entries_wf(a.entries, b.entries);
}

proof fn lemma_entries_view_push(s: Seq<(String, CCL)>, x: (String, CCL))
    ensures
        entries_view(s.push(x)) == entries_view(s).push((x.0@, ccl_view(x.1))),
{
    assert(s.push(x).drop_last() =~= s);
    assert(s.push(x).last() == x);
}

proof fn lemma_entries_view_tail(s: Seq<(String, CCL)>)
    requires
        s.len() > 0,
    ensures
        entries_view(s.drop_first()) == entries_view(s).drop_first(),
{
    lemma_entries_view(s);
    lemma_entries_view(s.drop_first());
    assert(s.drop_first().len() == s.len() - 1);
    assert(entries_view(s).drop_first().len() == s.len() - 1);
    assert forall|i: int| 0 <= i < s.len() - 1 implies entries_view(s.drop_first())[i]
        == entries_view(s).drop_first()[i] by {
        assert(s.drop_first()[i] == s[i + 1]);
        assert(entries_view(s).drop_first()[i] == entries_view(s)[i + 1]);
    }
    assert(entries_view(s.drop_first()) =~= entries_view(s).drop_first());
}

proof fn lemma_entries_view_concat(s: Seq<(String, CCL)>, t: Seq<(String, CCL)>)
    ensures
        entries_view(s + t) == entries_view(s) + entries_view(t),
    decreases t.len(),
{
    if t.len() == 0 {
        assert(s + t =~= s);
        assert(entries_view(s) + entries_view(t) =~= entries_view(s));
    } else {
        lemma_entries_view_concat(s, t.drop_last());
        assert((s + t).drop_last() =~= s + t.drop_last());
        assert((s + t).last() == t.last());
        assert(entries_view(s) + entries_view(t.drop_last()).push((t.last().0@, ccl_view(
            t.last().1,
        ))) =~= entries_view(s) + entries_view(t));
    }
}

/// Lookup of a key among entries: the child of the first entry carrying it.
pub open spec fn lookup_entries(es: Seq<(Seq<char>, CclV)>, key: Seq<char>) -> Option<CclV>
    decreases es.len(),
{
    if es.len() == 0 {
        None
    } else if es[0].0 == key {
        Some(es[0].1)
    } else {
        lookup_entries(es.drop_first(), key)
    }
}

/// Lookup of a key in a canonical value.
pub open spec fn lookup_v(v: CclV, key: Seq<char>) -> Option<CclV> {
    lookup_entries(v.entries, key)
}

/// The sequence of canonical values a vector of them stands for.
pub open spec fn ccls_view(s: Seq<CCL>) -> Seq<CclV>
    decreases s,
{
    if s.len() == 0 {
        Seq::empty()
    } else {
        ccls_view(s.drop_last()).push(ccl_view(s.last()))
    }
}

/// The left fold of merge over a sequence of canonical values, starting from
/// the empty one: the aggregate of the sequence.
pub open spec fn agg_v(s: Seq<CclV>) -> CclV
    decreases s.len(),
{
    if s.len() == 0 {
        empty_v()
    } else {
        merge_v(agg_v(s.drop_last()), s.last())
    }
}

impl CCL {
    /// A structurally equal copy.
    pub fn duplicate(&self) -> (r: CCL)
        ensures
            r@ == self@,
        decreases self@,
    {
        let ghost av = self@.entries;
        proof {
            lemma_entries_view(self.entries@);
        }
        let mut entries: Vec<(String, CCL)> = Vec::new();
        let mut i: usize = 0;
        proof {
            assert(entries_view(entries@) =~= av.take(0));
        }
        while i < self.entries.len()
            invariant
                0 <= i <= self.entries@.len(),
                av == self@.entries,
                av == entries_view(self.entries@),
                av.len() == self.entries@.len(),
                forall|j: int|
                    0 <= j < self.entries@.len() ==> #[trigger] av[j] == (
                        self.entries@[j].0@,
                        ccl_view(self.entries@[j].1),
                    ),
                entries_view(entries@) == av.take(i as int),
            decreases self.entries@.len() - i,
        {
            proof {
                assert(decreases_to!(self@ => self@.entries));
                assert(decreases_to!(self@.entries => self@.entries[i as int]));
                assert(decreases_to!(self@.entries[i as int] => self@.entries[i as int].1));
                assert((&self.entries[i as int].1)@ == ccl_view(self.entries@[i as int].1));
            }
            let k = self.entries[i].0.clone();
            let c = self.entries[i].1.duplicate();
            let ghost pre = entries@;
            let entry = (k, c);
            entries.push(entry);
            proof {
                lemma_entries_view_push(pre, entry);
                assert((entry.0@, ccl_view(entry.1)) == av[i as int]);
                assert(entries_view(entries@) =~= av.take(i + 1));
            }
            i = i + 1;
        }
        let r = CCL { entries };
        proof {
            assert(av.take(av.len() as int) =~= av);
            assert(r@.entries == entries_view(r.entries@));
            assert(r@ =~~= self@);
        }
        r
    }

    /// Merge: the keys of the result are the union of the two key sets, and
    /// the children of a key present on both sides are merged recursively.
    fn merge_impl(&self, other: &CCL) -> (r: CCL)
        requires
            wf_v(self@),
            wf_v(other@),
        ensures
            r@ == merge_v(self@, other@),
            wf_v(r@),
        decreases self@, other@,
    {
        proof {
            lemma_merge_v_wf(self@, other@);
        }
        let ghost av = self@.entries;
        let ghost bv = other@.entries;
        proof {
            lemma_entries_view(self.entries@);
            lemma_entries_view(other.entries@);
        }
        let na = self.entries.len();
        let nb = other.entries.len();
        let mut out: Vec<(String, CCL)> = Vec::new();
        let mut ai: usize = 0;
        let mut bi: usize = 0;
        proof {
            assert(av.skip(0) =~= av);
            assert(bv.skip(0) =~= bv);
            assert(entries_view(out@) =~= Seq::<(Seq<char>, CclV)>::empty());
            assert(entries_view(out@) + merge_entries(av.skip(0), bv.skip(0)) =~= merge_entries(
                av,
                bv,
            ));
        }
        while ai < na && bi < nb
            invariant
                0 <= ai <= na,
                0 <= bi <= nb,
                na == self.entries@.len(),
                nb == other.entries@.len(),
                av == self@.entries,
                bv == other@.entries,
                av == entries_view(self.entries@),
                bv == entries_view(other.entries@),
                av.len() == na,
                bv.len() == nb,
                forall|j: int|
                    0 <= j < na ==> #[trigger] av[j] == (
                        self.entries@[j].0@,
                        ccl_view(self.entries@[j].1),
                    ),
                forall|j: int|
                    0 <= j < nb ==> #[trigger] bv[j] == (
                        other.entries@[j].0@,
                        ccl_view(other.entries@[j].1),
                    ),
                wf_entries(av),
                wf_entries(bv),
                merge_entries(av, bv) == entries_view(out@) + merge_entries(
                    av.skip(ai as int),
                    bv.skip(bi as int),
                ),
            decreases na - ai + nb - bi,
        {
            let ghost resta = av.skip(ai as int);
            let ghost restb = bv.skip(bi as int);
            proof {
                assert(resta[0] == av[ai as int]);
                assert(restb[0] == bv[bi as int]);
                assert(resta.drop_first() =~= av.skip(ai + 1));
                assert(restb.drop_first() =~= bv.skip(bi + 1));
            }
            let c = str_cmp(self.entries[ai].0.as_str(), other.entries[bi].0.as_str());
            let ghost outpre = out@;
            match c {
                Cmp::Lt => {
                    let k = self.entries[ai].0.clone();
                    let child = self.entries[ai].1.duplicate();
                    let entry = (k, child);
                    out.push(entry);
                    proof {
                        lemma_entries_view_push(outpre, entry);
                        assert((entry.0@, ccl_view(entry.1)) == av[ai as int]);
                        assert(merge_entries(resta, restb) == seq![resta[0]] + merge_entries(
                            resta.drop_first(),
                            restb,
                        ));
                        assert(entries_view(out@) + merge_entries(av.skip(ai + 1), restb)
                            =~= entries_view(outpre) + merge_entries(resta, restb));
                    }
                    ai = ai + 1;
                },
                Cmp::Gt => {
                    let k = other.entries[bi].0.clone();
                    let child = other.entries[bi].1.duplicate();
                    let entry = (k, child);
                    out.push(entry);
                    proof {
                        lemma_entries_view_push(outpre, entry);
                        assert((entry.0@, ccl_view(entry.1)) == bv[bi as int]);
                        assert(merge_entries(resta, restb) == seq![restb[0]] + merge_entries(
                            resta,
                            restb.drop_first(),
                        ));
                        assert(entries_view(out@) + merge_entries(resta, bv.skip(bi + 1))
                            =~= entries_view(outpre) + merge_entries(resta, restb));
                    }
                    bi = bi + 1;
                },
                Cmp::Eq => {
                    proof {
                        assert(decreases_to!(self@ => self@.entries));
                        assert(decreases_to!(self@.entries => self@.entries[ai as int]));
                        assert(decreases_to!(self@.entries[ai as int] => self@.entries[
                            ai as int].1));
                        assert(decreases_to!(other@ => other@.entries));
                        assert(decreases_to!(other@.entries => other@.entries[bi as int]));
                        assert(decreases_to!(other@.entries[bi as int] => other@.entries[
                            bi as int].1));
                        assert((&self.entries[ai as int].1)@ == av[ai as int].1);
                        assert((&other.entries[bi as int].1)@ == bv[bi as int].1);
                        assert(wf_v(av[ai as int].1));
                        assert(wf_v(bv[bi as int].1));
                    }
                    let merged = (&self.entries[ai].1).merge_impl(&other.entries[bi].1);
                    let k = self.entries[ai].0.clone();
                    let entry = (k, merged);
                    out.push(entry);
                    proof {
                        lemma_entries_view_push(outpre, entry);
                        assert(!seq_lt(resta[0].0, restb[0].0) && !seq_lt(restb[0].0, resta[0].0));
                        assert(merge_entries(resta, restb) == seq![
                            (resta[0].0, merge_v(resta[0].1, restb[0].1)),
                        ] + merge_entries(resta.drop_first(), restb.drop_first()));
                        assert((entry.0@, ccl_view(entry.1)) == (
                            resta[0].0,
                            merge_v(resta[0].1, restb[0].1),
                        ));
                        assert(entries_view(out@) + merge_entries(av.skip(ai + 1), bv.skip(bi + 1))
                            =~= entries_view(outpre) + merge_entries(resta, restb));
                    }
                    ai = ai + 1;
                    bi = bi + 1;
                },
            }
        }
        while ai < na
            invariant
                0 <= ai <= na,
                bi == nb || ai == na,
                0 <= bi <= nb,
                bv.len() == nb,
                na == self.entries@.len(),
                av == entries_view(self.entries@),
                av.len() == na,
                forall|j: int|
                    0 <= j < na ==> #[trigger] av[j] == (
                        self.entries@[j].0@,
                        ccl_view(self.entries@[j].1),
                    ),
                merge_entries(av, bv) == entries_view(out@) + merge_entries(
                    av.skip(ai as int),
                    bv.skip(bi as int),
                ),
            decreases na - ai,
        {
            let ghost resta = av.skip(ai as int);
            proof {
                assert(bv.skip(bi as int).len() == 0);
                assert(resta[0] == av[ai as int]);
                assert(resta.drop_first() =~= av.skip(ai + 1));
                if resta.len() > 0 {
                    assert(merge_entries(resta, bv.skip(bi as int)) == resta);
                    assert(merge_entries(av.skip(ai + 1), bv.skip(bi as int)) == av.skip(ai + 1));
                }
            }
            let k = self.entries[ai].0.clone();
            let child = self.entries[ai].1.duplicate();
            let ghost outpre = out@;
            let entry = (k, child);
            out.push(entry);
            proof {
                lemma_entries_view_push(outpre, entry);
                assert((entry.0@, ccl_view(entry.1)) == av[ai as int]);
                assert(resta =~= seq![resta[0]] + resta.drop_first());
                assert(entries_view(out@) + av.skip(ai + 1) =~= entries_view(outpre) + resta);
            }
            ai = ai + 1;
        }
        while bi < nb
            invariant
                ai == na || bi == nb,
                0 <= bi <= nb,
                0 <= ai <= na,
                nb == other.entries@.len(),
                av.skip(ai as int).len() == 0,
                bv == entries_view(other.entries@),
                bv.len() == nb,
                forall|j: int|
                    0 <= j < nb ==> #[trigger] bv[j] == (
                        other.entries@[j].0@,
                        ccl_view(other.entries@[j].1),
                    ),
                merge_entries(av, bv) == entries_view(out@) + merge_entries(
                    av.skip(ai as int),
                    bv.skip(bi as int),
                ),
            decreases nb - bi,
        {
            let ghost restb = bv.skip(bi as int);
            proof {
                assert(restb[0] == bv[bi as int]);
                assert(restb.drop_first() =~= bv.skip(bi + 1));
                assert(merge_entries(av.skip(ai as int), restb) == restb);
                assert(merge_entries(av.skip(ai as int), bv.skip(bi + 1)) == bv.skip(bi + 1));
            }
            let k = other.entries[bi].0.clone();
            let child = other.entries[bi].1.duplicate();
            let ghost outpre = out@;
            let entry = (k, child);
            out.push(entry);
            proof {
                lemma_entries_view_push(outpre, entry);
                assert((entry.0@, ccl_view(entry.1)) == bv[bi as int]);
                assert(restb =~= seq![restb[0]] + restb.drop_first());
                assert(entries_view(out@) + bv.skip(bi + 1) =~= entries_view(outpre) + restb);
            }
            bi = bi + 1;
        }
        let r = CCL { entries: out };
        proof {
            assert(av.skip(ai as int).len() == 0);
            assert(bv.skip(bi as int).len() == 0);
            assert(merge_entries(av.skip(ai as int), bv.skip(bi as int)).len() == 0);
            assert(entries_view(out@) + merge_entries(av.skip(ai as int), bv.skip(bi as int))
                =~= entries_view(out@));
            assert(r@.entries == entries_view(r.entries@));
            assert(r@ =~~= merge_v(self@, other@));
        }
        r
    }

    /// A canonical value holding one key bound to the empty value.
    pub fn key(key: &str) -> (r: Self)
        ensures
            r@ == single_v(key@, empty_v()),
            wf_v(r@),
    {
        let mut entries: Vec<(String, CCL)> = Vec::new();
        entries.push((key.to_owned(), CCL::empty()));
        let r = CCL { entries };
        proof {
            lemma_entries_view(r.entries@);
            assert(r@.entries =~= single_v(key@, empty_v()).entries);
            assert(r@ =~~= single_v(key@, empty_v()));
        }
        r
    }

    /// A canonical value holding one key bound to a scalar: the scalar is a
    /// key one level down, bound to the empty value.
    pub fn key_val(key: &str, value: &str) -> (r: Self)
        ensures
            r@ == single_v(key@, single_v(value@, empty_v())),
            wf_v(r@),
    {
        let mut entries: Vec<(String, CCL)> = Vec::new();
        entries.push((key.to_owned(), CCL::key(value)));
        let r = CCL { entries };
        proof {
            lemma_entries_view(r.entries@);
            assert(r@.entries =~= single_v(key@, single_v(value@, empty_v())).entries);
            assert(r@ =~~= single_v(key@, single_v(value@, empty_v())));
        }
        r
    }

    /// A canonical value holding one key bound to the aggregate of the given
    /// children.
    pub fn nested(key: &str, values: Vec<CCL>) -> (r: Self)
        requires
            forall|i: int| 0 <= i < values@.len() ==> wf_v((#[trigger] values@[i])@),
        ensures
            r@ == single_v(key@, agg_v(ccls_view(values@))),
            wf_v(r@),
    {
        let child = CCL::aggregate(values);
        let mut entries: Vec<(String, CCL)> = Vec::new();
        entries.push((key.to_owned(), child));
        let r = CCL { entries };
        proof {
            lemma_entries_view(r.entries@);
            assert(r@.entries =~= single_v(key@, agg_v(ccls_view(values@))).entries);
            assert(r@ =~~= single_v(key@, agg_v(ccls_view(values@))));
        }
        r
    }

    /// The child bound to a key, if the key is present.
    pub fn get(&self, key: &str) -> (r: Option<&CCL>)
        ensures
            match r {
                Some(c) => lookup_v(self@, key@) == Some(c@),
                None => lookup_v(self@, key@) is None,
            },
    {
        let ghost es = self@.entries;
        let mut i: usize = 0;
        proof {
            lemma_entries_view(self.entries@);
            assert(es.skip(0) =~= es);
        }
        while i < self.entries.len()
            invariant
                0 <= i <= self.entries@.len(),
                es == entries_view(self.entries@),
                es.len() == self.entries@.len(),
                forall|j: int|
                    0 <= j < self.entries@.len() ==> #[trigger] es[j] == (
                        self.entries@[j].0@,
                        ccl_view(self.entries@[j].1),
                    ),
                lookup_entries(es.skip(i as int), key@) == lookup_entries(es, key@),
            decreases self.entries@.len() - i,
        {
            let c = str_cmp(self.entries[i].0.as_str(), key);
            if let Cmp::Eq = c {
                proof {
                    assert(es.skip(i as int)[0] == es[i as int]);
                }
                return Some(&self.entries[i].1);
            }
            proof {
                assert(es.skip(i as int)[0] == es[i as int]);
                assert(es.skip(i as int).drop_first() =~= es.skip(i + 1));
            }
            i = i + 1;
        }
        proof {
            assert(es.skip(i as int).len() == 0);
        }
        None
    }
}

proof fn lemma_cons_parts(h: (Seq<char>, CclV), t: Seq<(Seq<char>, CclV)>)
    ensures
        (seq![h] + t)[0] == h,
        (seq![h] + t).drop_first() == t,
        (seq![h] + t).len() == 1 + t.len(),
{
    assert((seq![h] + t).drop_first() =~= t);
}

proof fn lemma_merge_entries_assoc(
    ea: Seq<(Seq<char>, CclV)>,
    eb: Seq<(Seq<char>, CclV)>,
    ec: Seq<(Seq<char>, CclV)>,
)
    requires
        wf_entries(ea),
        wf_entries(eb),
        wf_entries(ec),
    ensures
        merge_entries(merge_entries(ea, eb), ec) == merge_entries(ea, merge_entries(eb, ec)),
    decreases ea, eb, ec,
{
    if ea.len() == 0 {
    } else if eb.len() == 0 {
        assert(merge_entries(ea, eb) == ea);
        assert(merge_entries(eb, ec) == ec);
    } else if ec.len() == 0 {
        assert(merge_entries(merge_entries(ea, eb), ec) == merge_entries(ea, eb));
        assert(merge_entries(eb, ec) == eb);
    } else {
        let a0 = ea[0];
        let b0 = eb[0];
        let c0 = ec[0];
        let ta = ea.drop_first();
        let tb = eb.drop_first();
        let tc = ec.drop_first();
        lemma_wf_entries_tail(ea);
        lemma_wf_entries_tail(eb);
        lemma_wf_entries_tail(ec);
        if seq_lt(a0.0, b0.0) {
            lemma_cons_parts(a0, merge_entries(ta, eb));
            assert(merge_entries(ea, eb) == seq![a0] + merge_entries(ta, eb));
            if seq_lt(b0.0, c0.0) {
                lemma_seq_lt_trans(a0.0, b0.0, c0.0);
                lemma_cons_parts(b0, merge_entries(tb, ec));
                assert(merge_entries(eb, ec) == seq![b0] + merge_entries(tb, ec));
                lemma_merge_entries_assoc(ta, eb, ec);
                assert(merge_entries(merge_entries(ea, eb), ec) == seq![a0] + merge_entries(
                    merge_entries(ta, eb),
                    ec,
                ));
                assert(merge_entries(ea, merge_entries(eb, ec)) == seq![a0] + merge_entries(
                    ta,
                    merge_entries(eb, ec),
                ));
            } else if seq_lt(c0.0, b0.0) {
                lemma_cons_parts(c0, merge_entries(eb, tc));
                assert(merge_entries(eb, ec) == seq![c0] + merge_entries(eb, tc));
                if seq_lt(a0.0, c0.0) {
                    lemma_merge_entries_assoc(ta, eb, ec);
                    assert(merge_entries(merge_entries(ea, eb), ec) == seq![a0] + merge_entries(
                        merge_entries(ta, eb),
                        ec,
                    ));
                    assert(merge_entries(ea, merge_entries(eb, ec)) == seq![a0] + merge_entries(
                        ta,
                        merge_entries(eb, ec),
                    ));
                } else if seq_lt(c0.0, a0.0) {
                    lemma_merge_entries_assoc(ea, eb, tc);
                    assert(merge_entries(merge_entries(ea, eb), ec) == seq![c0] + merge_entries(
                        merge_entries(ea, eb),
                        tc,
                    ));
                    assert(merge_entries(ea, merge_entries(eb, ec)) == seq![c0] + merge_entries(
                        ea,
                        merge_entries(eb, tc),
                    ));
                } else {
                    crate::text::lemma_seq_lt_connected(a0.0, c0.0);
                    assert(a0.0 == c0.0);
                    lemma_merge_entries_assoc(ta, eb, tc);
                    assert(merge_entries(merge_entries(ea, eb), ec) == seq![
                        (a0.0, merge_v(a0.1, c0.1)),
                    ] + merge_entries(merge_entries(ta, eb), tc));
                    assert(merge_entries(ea, merge_entries(eb, ec)) == seq![
                        (a0.0, merge_v(a0.1, c0.1)),
                    ] + merge_entries(ta, merge_entries(eb, tc)));
                }
            } else {
                crate::text::lemma_seq_lt_connected(b0.0, c0.0);
                assert(b0.0 == c0.0);
                lemma_cons_parts((b0.0, merge_v(b0.1, c0.1)), merge_entries(tb, tc));
                assert(merge_entries(eb, ec) == seq![(b0.0, merge_v(b0.1, c0.1))] + merge_entries(
                    tb,
                    tc,
                ));
                lemma_merge_entries_assoc(ta, eb, ec);
                assert(merge_entries(merge_entries(ea, eb), ec) == seq![a0] + merge_entries(
                    merge_entries(ta, eb),
                    ec,
                ));
                assert(merge_entries(ea, merge_entries(eb, ec)) == seq![a0] + merge_entries(
                    ta,
                    merge_entries(eb, ec),
                ));
            }
        } else if seq_lt(b0.0, a0.0) {
            lemma_cons_parts(b0, merge_entries(ea, tb));
            assert(merge_entries(ea, eb) == seq![b0] + merge_entries(ea, tb));
            if seq_lt(b0.0, c0.0) {
                lemma_cons_parts(b0, merge_entries(tb, ec));
                assert(merge_entries(eb, ec) == seq![b0] + merge_entries(tb, ec));
                lemma_merge_entries_assoc(ea, tb, ec);
                assert(merge_entries(merge_entries(ea, eb), ec) == seq![b0] + merge_entries(
                    merge_entries(ea, tb),
                    ec,
                ));
                assert(merge_entries(ea, merge_entries(eb, ec)) == seq![b0] + merge_entries(
                    ea,
                    merge_entries(tb, ec),
                ));
            } else if seq_lt(c0.0, b0.0) {
                lemma_seq_lt_trans(c0.0, b0.0, a0.0);
                crate::text::lemma_seq_lt_asym(a0.0, c0.0);
                lemma_cons_parts(c0, merge_entries(eb, tc));
                assert(merge_entries(eb, ec) == seq![c0] + merge_entries(eb, tc));
                lemma_merge_entries_assoc(ea, eb, tc);
                assert(merge_entries(merge_entries(ea, eb), ec) == seq![c0] + merge_entries(
                    merge_entries(ea, eb),
                    tc,
                ));
                assert(merge_entries(ea, merge_entries(eb, ec)) == seq![c0] + merge_entries(
                    ea,
                    merge_entries(eb, tc),
                ));
            } else {
                crate::text::lemma_seq_lt_connected(b0.0, c0.0);
                assert(b0.0 == c0.0);
                lemma_cons_parts((b0.0, merge_v(b0.1, c0.1)), merge_entries(tb, tc));
                assert(merge_entries(eb, ec) == seq![(b0.0, merge_v(b0.1, c0.1))] + merge_entries(
                    tb,
                    tc,
                ));
                lemma_merge_entries_assoc(ea, tb, tc);
                assert(merge_entries(merge_entries(ea, eb), ec) == seq![
                    (b0.0, merge_v(b0.1, c0.1)),
                ] + merge_entries(merge_entries(ea, tb), tc));
                assert(merge_entries(ea, merge_entries(eb, ec)) == seq![
                    (b0.0, merge_v(b0.1, c0.1)),
                ] + merge_entries(ea, merge_entries(tb, tc)));
            }
        } else {
            crate::text::lemma_seq_lt_connected(a0.0, b0.0);
            assert(a0.0 == b0.0);
            lemma_cons_parts((a0.0, merge_v(a0.1, b0.1)), merge_entries(ta, tb));
            assert(merge_entries(ea, eb) == seq![(a0.0, merge_v(a0.1, b0.1))] + merge_entries(
                ta,
                tb,
            ));
            if seq_lt(b0.0, c0.0) {
                lemma_cons_parts(b0, merge_entries(tb, ec));
                assert(merge_entries(eb, ec) == seq![b0] + merge_entries(tb, ec));
                lemma_merge_entries_assoc(ta, tb, ec);
                assert(merge_entries(merge_entries(ea, eb), ec) == seq![
                    (a0.0, merge_v(a0.1, b0.1)),
                ] + merge_entries(merge_entries(ta, tb), ec));
                assert(merge_entries(ea, merge_entries(eb, ec)) == seq![
                    (a0.0, merge_v(a0.1, b0.1)),
                ] + merge_entries(ta, merge_entries(tb, ec)));
            } else if seq_lt(c0.0, b0.0) {
                lemma_cons_parts(c0, merge_entries(eb, tc));
                assert(merge_entries(eb, ec) == seq![c0] + merge_entries(eb, tc));
                lemma_merge_entries_assoc(ea, eb, tc);
                assert(merge_entries(merge_entries(ea, eb), ec) == seq![c0] + merge_entries(
                    merge_entries(ea, eb),
                    tc,
                ));
                assert(merge_entries(ea, merge_entries(eb, ec)) == seq![c0] + merge_entries(
                    ea,
                    merge_entries(eb, tc),
                ));
            } else {
                crate::text::lemma_seq_lt_connected(b0.0, c0.0);
                assert(b0.0 == c0.0);
                lemma_cons_parts((b0.0, merge_v(b0.1, c0.1)), merge_entries(tb, tc));
                assert(merge_entries(eb, ec) == seq![(b0.0, merge_v(b0.1, c0.1))] + merge_entries(
                    tb,
                    tc,
                ));
                lemma_merge_v_assoc(a0.1, b0.1, c0.1);
                lemma_merge_entries_assoc(ta, tb, tc);
                assert(merge_entries(merge_entries(ea, eb), ec) == seq![
                    (a0.0, merge_v(merge_v(a0.1, b0.1), c0.1)),
                ] + merge_entries(merge_entries(ta, tb), tc));
                assert(merge_entries(ea, merge_entries(eb, ec)) == seq![
                    (a0.0, merge_v(a0.1, merge_v(b0.1, c0.1))),
                ] + merge_entries(ta, merge_entries(tb, tc)));
            }
        }
    }
}

/// Merge of canonical values is associative.
pub proof fn lemma_merge_v_assoc(a: CclV, b: CclV, c: CclV)
    requires
        wf_v(a),
        wf_v(b),
        wf_v(c),
    ensures
        merge_v(merge_v(a, b), c) == merge_v(a, merge_v(b, c)),
    decreases a, b, c,
{
    lemma_merge_entries_assoc(a.entries, b.entries, c.entries);
    assert(merge_v(merge_v(a, b), c) =~~= merge_v(a, merge_v(b, c)));
}

/// The empty canonical value is a two-sided identity of merge.
pub proof fn lemma_merge_v_identity(a: CclV)
    ensures
        merge_v(empty_v(), a) == a,
        merge_v(a, empty_v()) == a,
{
    if a.entries.len() == 0 {
        assert(a.entries =~= Seq::<(Seq<char>, CclV)>::empty());
        assert(merge_entries(a.entries, empty_v().entries) =~= a.entries);
    }
    assert(merge_v(empty_v(), a) =~~= a);
    assert(merge_v(a, empty_v()) =~~= a);
}

/// A run of spaces.
pub open spec fn spaces(n: nat) -> Seq<char> {
    Seq::new(n, |i: int| ' ')
}

/// The printed form of an entry sequence at an indentation depth: for each
/// entry in order, the indentation, the key, a space, the separator and a
/// line feed, then the child printed two columns deeper.
pub open spec fn print_entries(es: Seq<(Seq<char>, CclV)>, ind: nat) -> Seq<char>
    decreases es,
{
    if es.len() == 0 {
        Seq::empty()
    } else {
        spaces(ind) + es[0].0 + seq![' ', '=', '\n'] + print_v(es[0].1, ind + 2)
            + print_entries(es.drop_first(), ind)
    }
}

/// The printed form of a canonical value: the empty value prints as the
/// empty text, so a scalar key prints as exactly one line.
pub open spec fn print_v(v: CclV, ind: nat) -> Seq<char>
    decreases v,
{
    print_entries(v.entries, ind)
}

impl CCL {
    fn pretty_impl(&self, prefix: &mut Vec<char>, out: &mut Vec<char>)
        requires
            forall|i: int| 0 <= i < old(prefix)@.len() ==> old(prefix)@[i] == ' ',
        ensures
            final(prefix)@ == old(prefix)@,
            final(out)@ == old(out)@ + print_v(self@, old(prefix)@.len() as nat),
        decreases self@,
    {
        let ghost sv = self@;
        let ghost ind = prefix@.len() as nat;
        let ghost out0 = out@;
        proof {
            lemma_entries_view(self.entries@);
            assert(sv.entries.skip(0) =~= sv.entries);
        }
        let n = self.entries.len();
        let mut i: usize = 0;
        while i < n
            invariant
                0 <= i <= n,
                n == self.entries@.len(),
                sv == self@,
                sv.entries == entries_view(self.entries@),
                sv.entries.len() == n,
                forall|j: int|
                    0 <= j < n ==> #[trigger] sv.entries[j] == (
                        self.entries@[j].0@,
                        ccl_view(self.entries@[j].1),
                    ),
                prefix@.len() == ind,
                forall|t: int| 0 <= t < prefix@.len() ==> prefix@[t] == ' ',
                out@ + print_entries(sv.entries.skip(i as int), ind) == out0 + print_v(sv, ind),
            decreases n - i,
        {
            let ghost rest = sv.entries.skip(i as int);
            proof {
                assert(rest[0] == sv.entries[i as int]);
                assert(rest.drop_first() =~= sv.entries.skip(i + 1));
                assert(prefix@ =~= spaces(ind));
            }
            let ghost mid0 = out@;
            crate::text::push_range(out, prefix, 0, prefix.len());
            proof {
                assert(prefix@.subrange(0, prefix@.len() as int) =~= prefix@);
            }
            let kc = crate::text::to_chars(self.entries[i].0.as_str());
            crate::text::push_range(out, &kc, 0, kc.len());
            proof {
                assert(kc@.subrange(0, kc@.len() as int) =~= kc@);
            }
            out.push(' ');
            out.push('=');
            out.push('\n');
            proof {
                assert(out@ =~= mid0 + spaces(ind) + rest[0].0 + seq![' ', '=', '\n']);
            }
            prefix.push(' ');
            prefix.push(' ');
            proof {
                assert(decreases_to!(sv => sv.entries));
                assert(decreases_to!(sv.entries => sv.entries[i as int]));
                assert(decreases_to!(sv.entries[i as int] => sv.entries[i as int].1));
                assert((&self.entries[i as int].1)@ == sv.entries[i as int].1);
            }
            let ghost mid1 = out@;
            (&self.entries[i].1).pretty_impl(prefix, out);
            let m = prefix.len() - 2;
            prefix.truncate(m);
            proof {
                assert(prefix@ =~= spaces(ind));
                assert(out@ =~= mid1 + print_v(rest[0].1, ind + 2));
                assert(out@ + print_entries(sv.entries.skip(i + 1), ind) =~= mid0 + print_entries(
                    rest,
                    ind,
                ));
            }
            i = i + 1;
        }
        proof {
            assert(sv.entries.skip(n as int).len() == 0);
            assert(out@ + print_entries(sv.entries.skip(n as int), ind) =~= out@);
        }
    }

    /// The deterministic textual form of a canonical value: keys in
    /// lexicographic order, one line per key, children two columns deeper.
    pub fn pretty(&self) -> (r: String)
        ensures
            r@ == print_v(self@, 0),
    {
        let mut prefix: Vec<char> = Vec::new();
        let mut out: Vec<char> = Vec::new();
        self.pretty_impl(&mut prefix, &mut out);
        proof {
            assert(out@ =~= print_v(self@, 0));
        }
        string_from_chars(&out)
    }

    /// Structural equality of two canonical values.
    pub fn equals(&self, other: &CCL) -> (r: bool)
        ensures
            r == (self@ == other@),
        decreases self@, other@,
    {
        let ghost sv = self@;
        let ghost ov = other@;
        proof {
            lemma_entries_view(self.entries@);
            lemma_entries_view(other.entries@);
        }
        let na = self.entries.len();
        let nb = other.entries.len();
        if na != nb {
            proof {
                assert(sv.entries.len() != ov.entries.len());
            }
            return false;
        }
        let mut i: usize = 0;
        while i < na
            invariant
                0 <= i <= na,
                na == nb,
                na == self.entries@.len(),
                nb == other.entries@.len(),
                sv == self@,
                ov == other@,
                sv.entries == entries_view(self.entries@),
                ov.entries == entries_view(other.entries@),
                sv.entries.len() == na,
                ov.entries.len() == nb,
                forall|j: int|
                    0 <= j < na ==> #[trigger] sv.entries[j] == (
                        self.entries@[j].0@,
                        ccl_view(self.entries@[j].1),
                    ),
                forall|j: int|
                    0 <= j < nb ==> #[trigger] ov.entries[j] == (
                        other.entries@[j].0@,
                        ccl_view(other.entries@[j].1),
                    ),
                forall|j: int| 0 <= j < i ==> sv.entries[j] == ov.entries[j],
            decreases na - i,
        {
            let kc = str_cmp(self.entries[i].0.as_str(), other.entries[i].0.as_str());
            let keys_equal = match kc {
                Cmp::Eq => true,
                _ => false,
            };
            if !keys_equal {
                proof {
                    crate::text::lemma_seq_lt_irrefl(self.entries@[i as int].0@);
                    assert(sv.entries[i as int].0 != ov.entries[i as int].0);
                    assert(sv.entries != ov.entries);
                }
                return false;
            }
            proof {
                assert(decreases_to!(sv => sv.entries));
                assert(decreases_to!(sv.entries => sv.entries[i as int]));
                assert(decreases_to!(sv.entries[i as int] => sv.entries[i as int].1));
                assert(decreases_to!(ov => ov.entries));
                assert(decreases_to!(ov.entries => ov.entries[i as int]));
                assert(decreases_to!(ov.entries[i as int] => ov.entries[i as int].1));
                assert((&self.entries[i as int].1)@ == sv.entries[i as int].1);
                assert((&other.entries[i as int].1)@ == ov.entries[i as int].1);
            }
            let child_equal = (&self.entries[i].1).equals(&other.entries[i].1);
            if !child_equal {
                proof {
                    assert(sv.entries[i as int].1 != ov.entries[i as int].1);
                    assert(sv.entries != ov.entries);
                }
                return false;
            }
            i = i + 1;
        }
        proof {
            assert(sv.entries =~= ov.entries);
            assert(sv =~= ov);
        }
        true
    }
}

impl Monoid for CCL {
    open spec fn valid(&self) -> bool {
        wf_v(ccl_view(*self))
    }

    open spec fn is_empty_val(r: &Self) -> bool {
        ccl_view(*r) == empty_v()
    }

    open spec fn is_merge_of(a: &Self, b: &Self, r: &Self) -> bool {
        ccl_view(*r) == merge_v(ccl_view(*a), ccl_view(*b))
    }

    open spec fn is_aggregate_of(items: Seq<Self>, r: &Self) -> bool {
        ccl_view(*r) == agg_v(ccls_view(items))
    }

    proof fn lemma_aggregate_empty(r: &Self) {
        assert(ccls_view(Seq::<CCL>::empty()) =~= Seq::<CclV>::empty());
    }

    proof fn lemma_aggregate_step(items: Seq<Self>, acc: &Self, x: &Self, r: &Self) {
        assert(items.push(*x).drop_last() =~= items);
        assert(items.push(*x).last() == *x);
        let vs = ccls_view(items.push(*x));
        assert(vs == ccls_view(items).push(ccl_view(*x)));
        assert(vs.drop_last() =~= ccls_view(items));
        assert(vs.last() == ccl_view(*x));
        assert(agg_v(vs) == merge_v(agg_v(ccls_view(items)), ccl_view(*x)));
    }

    fn empty() -> (r: Self) {
        let r = CCL { entries: Vec::new() };
        proof {
            assert(r@.entries =~= empty_v().entries);
            assert(r@ =~~= empty_v());
        }
        r
    }

    fn merge(self, other: Self) -> (r: Self) {
        (&self).merge_impl(&other)
    }

    fn aggregate(items: Vec<Self>) -> (r: Self) {
        let ghost orig = items@;
        let mut items = items;
        let mut acc = CCL::empty();
        let ghost mut done: Seq<CCL> = Seq::empty();
        proof {
            assert(ccls_view(done) =~= Seq::<CclV>::empty());
        }
        while items.len() > 0
            invariant
                forall|i: int| 0 <= i < orig.len() ==> wf_v((#[trigger] orig[i])@),
                wf_v(acc@),
                acc@ == agg_v(ccls_view(done)),
                orig == done + items@,
            decreases items@.len(),
        {
            let ghost pre = items@;
            let x = items.remove(0);
            let ghost xg = x;
            proof {
                assert(items@ =~= pre.drop_first());
                assert(orig[done.len() as int] == x);
            }
            acc = (&acc).merge_impl(&x);
            proof {
                assert(done.push(xg).drop_last() =~= done);
                assert(done.push(xg).last() == xg);
                assert(ccls_view(done.push(xg)) == ccls_view(done).push(ccl_view(xg)));
                assert(ccls_view(done).push(ccl_view(xg)).drop_last() =~= ccls_view(done));
                assert(ccls_view(done).push(ccl_view(xg)).last() == ccl_view(xg));
                done = done.push(xg);
                assert(orig =~= done + items@);
            }
        }
        proof {
            assert(done =~= orig);
        }
        acc
    }
}


/// A one-key canonical value is well-formed when its child is.
pub proof fn lemma_single_wf(key: Seq<char>, child: CclV)
    requires
        wf_v(child),
    ensures
        wf_v(single_v(key, child)),
{
    let es = single_v(key, child).entries;
    assert forall|i: int| 0 <= i < es.len() implies wf_v(#[trigger] es[i].1) by {
        assert(es[i].1 == child);
    }
}

/// The canonical contribution of one node under its key: an empty leaf is
/// the bare key, a non-empty leaf is the key with the leaf as a scalar, and
/// a subtree is the key over the subtree's canonical value.
pub open spec fn node_ccl(key: Seq<char>, node: crate::key_val::NodeV) -> CclV
    decreases node,
{
    match node {
        crate::key_val::NodeV::Leaf(v) => if v.len() == 0 {
            single_v(key, empty_v())
        } else {
            single_v(key, single_v(v, empty_v()))
        },
        crate::key_val::NodeV::Tree(t) => single_v(key, build_tree(t)),
    }
}

/// The merged contributions of all of one key's nodes, in source order.
pub open spec fn nodes_ccl(key: Seq<char>, nodes: Seq<crate::key_val::NodeV>) -> CclV
    decreases nodes,
{
    if nodes.len() == 0 {
        empty_v()
    } else {
        merge_v(nodes_ccl(key, nodes.drop_last()), node_ccl(key, nodes.last()))
    }
}

/// The canonical value of a grouped tree: the contributions of every key
/// merged together, so repeated keys collapse into one recursively merged
/// child.
pub open spec fn build_tree(t: crate::key_val::TreeV) -> CclV
    decreases t,
{
    if t.len() == 0 {
        empty_v()
    } else {
        merge_v(build_tree(t.drop_last()), nodes_ccl(t.last().0, t.last().1))
    }
}

pub proof fn lemma_node_ccl_wf(key: Seq<char>, node: crate::key_val::NodeV)
    requires
        crate::key_val::node_wf(node),
    ensures
        wf_v(node_ccl(key, node)),
    decreases node,
{
    match node {
        crate::key_val::NodeV::Leaf(v) => {
            lemma_single_wf(v, empty_v());
            lemma_single_wf(key, single_v(v, empty_v()));
            lemma_single_wf(key, empty_v());
        },
        crate::key_val::NodeV::Tree(t) => {
            lemma_build_tree_wf(t);
            lemma_single_wf(key, build_tree(t));
        },
    }
}

pub proof fn lemma_nodes_ccl_wf(key: Seq<char>, nodes: Seq<crate::key_val::NodeV>)
    requires
        forall|j: int| 0 <= j < nodes.len() ==> crate::key_val::node_wf(#[trigger] nodes[j]),
    ensures
        wf_v(nodes_ccl(key, nodes)),
    decreases nodes,
{
    if nodes.len() > 0 {
        assert forall|j: int|
            0 <= j < nodes.drop_last().len() implies crate::key_val::node_wf(
            #[trigger] nodes.drop_last()[j],
        ) by {
            assert(nodes.drop_last()[j] == nodes[j]);
        }
        lemma_nodes_ccl_wf(key, nodes.drop_last());
        lemma_node_ccl_wf(key, nodes.last());
        lemma_merge_v_wf(nodes_ccl(key, nodes.drop_last()), node_ccl(key, nodes.last()));
    }
}

/// The canonical value built from a well-formed tree is well-formed.
pub proof fn lemma_build_tree_wf(t: crate::key_val::TreeV)
    requires
        crate::key_val::tree_wf(t),
    ensures
        wf_v(build_tree(t)),
    decreases t,
{
    if t.len() > 0 {
        let td = t.drop_last();
        assert forall|i: int, j: int| 0 <= i < j < td.len() implies #[trigger] seq_lt(
            td[i].0,
            td[j].0,
        ) by {
            assert(td[i] == t[i]);
            assert(td[j] == t[j]);
        }
        assert forall|i: int| 0 <= i < td.len() implies (#[trigger] td[i].1).len() > 0 by {
            assert(td[i] == t[i]);
        }
        assert forall|i: int, j: int|
            0 <= i < td.len() && 0 <= j < td[i].1.len() implies crate::key_val::node_wf(
            #[trigger] td[i].1[j],
        ) by {
            assert(td[i] == t[i]);
        }
        lemma_build_tree_wf(td);
        assert forall|j: int|
            0 <= j < t.last().1.len() implies crate::key_val::node_wf(
            #[trigger] t.last().1[j],
        ) by {
            assert(t.last() == t[t.len() - 1]);
        }
        lemma_nodes_ccl_wf(t.last().0, t.last().1);
        lemma_merge_v_wf(build_tree(td), nodes_ccl(t.last().0, t.last().1));
    }
}

/// The contributions of a key's nodes, one canonical value each.
pub open spec fn node_ccl_seq(key: Seq<char>, nodes: Seq<crate::key_val::NodeV>) -> Seq<CclV>
    decreases nodes,
{
    if nodes.len() == 0 {
        Seq::empty()
    } else {
        node_ccl_seq(key, nodes.drop_last()).push(node_ccl(key, nodes.last()))
    }
}

proof fn lemma_node_ccl_seq_agg(key: Seq<char>, nodes: Seq<crate::key_val::NodeV>)
    ensures
        agg_v(node_ccl_seq(key, nodes)) == nodes_ccl(key, nodes),
    decreases nodes,
{
    if nodes.len() > 0 {
        lemma_node_ccl_seq_agg(key, nodes.drop_last());
        let s = node_ccl_seq(key, nodes);
        assert(s == node_ccl_seq(key, nodes.drop_last()).push(node_ccl(key, nodes.last())));
        assert(s.drop_last() =~= node_ccl_seq(key, nodes.drop_last()));
        assert(s.last() == node_ccl(key, nodes.last()));
    }
}

impl CCL {
    /// Fold a grouped tree into its canonical value: the contributions of
    /// every key and every node merged together, in key order and, within a
    /// key, in source order.
    pub fn parse_tree_to_fix(tree: &KeyValTree) -> (r: CCL)
        requires
            crate::key_val::tree_wf(tree@),
        ensures
            r@ == build_tree(tree@),
            wf_v(r@),
        decreases tree@,
    {
        let ghost tv = tree@;
        proof {
            crate::key_val::lemma_tentries_view(tree.entries@);
        }
        let mut acc = CCL::empty();
        let n = tree.entries.len();
        let mut i: usize = 0;
        proof {
            assert(build_tree(tv.take(0)) =~~= empty_v());
        }
        while i < n
            invariant
                0 <= i <= n,
                n == tree.entries@.len(),
                tv == tree@,
                crate::key_val::tree_wf(tv),
                tv == crate::key_val::tentries_view(tree.entries@),
                tv.len() == n,
                forall|j: int|
                    0 <= j < n ==> #[trigger] tv[j] == (
                        tree.entries@[j].0@,
                        crate::key_val::nodes_view(tree.entries@[j].1@),
                    ),
                wf_v(acc@),
                acc@ == build_tree(tv.take(i as int)),
            decreases n - i,
        {
            let ghost key_v = tv[i as int].0;
            let ghost nodes_v = tv[i as int].1;
            proof {
                crate::key_val::lemma_nodes_view(tree.entries@[i as int].1@);
                assert(nodes_v == crate::key_val::nodes_view(tree.entries@[i as int].1@));
            }
            let m = tree.entries[i].1.len();
            let mut ccls: Vec<CCL> = Vec::new();
            let mut j: usize = 0;
            proof {
                assert(ccls_view(ccls@) =~= node_ccl_seq(key_v, nodes_v.take(0)));
            }
            while j < m
                invariant
                    0 <= j <= m,
                    0 <= i < n,
                    n == tree.entries@.len(),
                    m == tree.entries@[i as int].1@.len(),
                    tv == tree@,
                    crate::key_val::tree_wf(tv),
                    tv == crate::key_val::tentries_view(tree.entries@),
                    tv.len() == n,
                    key_v == tv[i as int].0,
                    nodes_v == tv[i as int].1,
                    nodes_v.len() == m,
                    forall|k: int|
                        0 <= k < m ==> #[trigger] nodes_v[k] == crate::key_val::node_view(
                            tree.entries@[i as int].1@[k],
                        ),
                    ccls_view(ccls@) == node_ccl_seq(key_v, nodes_v.take(j as int)),
                    forall|k: int| 0 <= k < ccls@.len() ==> wf_v((#[trigger] ccls@[k])@),
                decreases m - j,
            {
                proof {
                    assert(crate::key_val::node_wf(nodes_v[j as int]));
                    lemma_node_ccl_wf(key_v, nodes_v[j as int]);
                }
                let key = &tree.entries[i].0;
                let c: CCL = match &tree.entries[i].1[j] {
                    KeyValNode::Leaf(leaf) => {
                        proof {
                            crate::key_val::lemma_tentries_view(tree.entries@);
                            assert(nodes_v[j as int] == crate::key_val::NodeV::Leaf(leaf@));
                            assert(key@ == key_v);
                        }
                        if leaf.as_str().is_empty() {
                            CCL::key(key.as_str())
                        } else {
                            CCL::key_val(key.as_str(), leaf.as_str())
                        }
                    },
                    KeyValNode::Tree(sub) => {
                        proof {
                            assert(nodes_v[j as int] == crate::key_val::NodeV::Tree(sub@));
                            assert(decreases_to!(tv => tv[i as int]));
                            assert(decreases_to!(tv[i as int] => tv[i as int].1));
                            assert(decreases_to!(tv[i as int].1 => tv[i as int].1[j as int]));
                            assert(decreases_to!(nodes_v[j as int] => nodes_v[j as int]->Tree_0));
                            assert(nodes_v[j as int]->Tree_0 == sub@);
                            assert(crate::key_val::node_wf(crate::key_val::NodeV::Tree(sub@)));
                        }
                        let built = CCL::parse_tree_to_fix(sub);
                        let mut one: Vec<CCL> = Vec::new();
                        one.push(built);
                        let ghost oneg = one@;
                        let r = CCL::nested(key.as_str(), one);
                        proof {
                            crate::key_val::lemma_tentries_view(tree.entries@);
                            assert(key@ == key_v);
                            assert(oneg.drop_last() =~= Seq::<CCL>::empty());
                            assert(ccls_view(oneg) == ccls_view(oneg.drop_last()).push(ccl_view(
                                oneg.last(),
                            )));
                            assert(ccls_view(oneg.drop_last()) =~= Seq::<CclV>::empty());
                            assert(ccls_view(oneg).drop_last() =~= Seq::<CclV>::empty());
                            assert(ccls_view(oneg).last() == build_tree(sub@));
                            assert(agg_v(Seq::<CclV>::empty()) == empty_v());
                            assert(agg_v(ccls_view(oneg)) == merge_v(
                                empty_v(),
                                build_tree(sub@),
                            ));
                            lemma_merge_v_identity(build_tree(sub@));
                            assert(r@ == single_v(key@, build_tree(sub@)));
                        }
                        r
                    },
                };
                proof {
                    assert(c@ == node_ccl(key_v, nodes_v[j as int]));
                }
                let ghost cg = ccls@;
                ccls.push(c);
                proof {
                    assert(ccls@.drop_last() =~= cg);
                    assert(ccls_view(ccls@) == ccls_view(cg).push(c@));
                    assert(nodes_v.take(j + 1).drop_last() =~= nodes_v.take(j as int));
                    assert(nodes_v.take(j + 1).last() == nodes_v[j as int]);
                    assert(node_ccl_seq(key_v, nodes_v.take(j + 1)) == node_ccl_seq(
                        key_v,
                        nodes_v.take(j as int),
                    ).push(node_ccl(key_v, nodes_v[j as int])));
                    assert forall|k: int| 0 <= k < ccls@.len() implies wf_v(
                        (#[trigger] ccls@[k])@,
                    ) by {
                        if k < cg.len() {
                            assert(ccls@[k] == cg[k]);
                        }
                    }
                }
                j = j + 1;
            }
            let agg = CCL::aggregate(ccls);
            proof {
                assert(nodes_v.take(m as int) =~= nodes_v);
                lemma_node_ccl_seq_agg(key_v, nodes_v);
                assert(agg@ == nodes_ccl(key_v, nodes_v));
                assert forall|k: int|
                    0 <= k < nodes_v.len() implies crate::key_val::node_wf(
                    #[trigger] nodes_v[k],
                ) by {}
                lemma_nodes_ccl_wf(key_v, nodes_v);
            }
            let ghost acc_pre = acc@;
            acc = (&acc).merge_impl(&agg);
            proof {
                assert(tv.take(i + 1).drop_last() =~= tv.take(i as int));
                assert(tv.take(i + 1).last() == tv[i as int]);
                assert(build_tree(tv.take(i + 1)) == merge_v(
                    build_tree(tv.take(i as int)),
                    nodes_ccl(key_v, nodes_v),
                ));
            }
            i = i + 1;
        }
        proof {
            assert(tv.take(n as int) =~= tv);
        }
        acc
    }

    /// The canonical value of an ordered pair sequence: the pairs grouped
    /// into a tree, then folded into the canonical form.
    pub fn parse(key_vals: KeyVals) -> (r: CCL)
        ensures
            r@ == build_tree(crate::key_val::group_pairs(crate::key_val::kvs_view(key_vals@))),
            wf_v(r@),
    {
        let tree = KeyVal::parse_flat_to_tree(&key_vals);
        CCL::parse_tree_to_fix(&tree)
    }
}

} // verus!
