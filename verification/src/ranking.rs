//! Ordering of anchor candidates: by a key of a flag and two counts, all preferred high,
//! then by node identifier; candidates that tie keep their order.

use vstd::prelude::*;

use crate::anchors::{hint_view, HintView, PressureSlackHint};
use crate::diff::{lemma_seq_less_asymmetric, lemma_seq_less_irreflexive, lemma_seq_less_total, lemma_seq_less_transitive, seq_less, str_less};

verus! {

/// A candidate: its ranking key and the anchor it would give.
pub struct Ranked<P> {
    pub key: (bool, usize, usize),
    pub hint: PressureSlackHint<P>,
}

pub type RankedView<P> = ((bool, usize, usize), Seq<char>, P);

pub open spec fn ranked_view<P>(r: Ranked<P>) -> RankedView<P> {
    (r.key, r.hint.node_id@, r.hint.pressure_bar)
}

pub open spec fn ranked_views<P>(v: Seq<Ranked<P>>) -> Seq<RankedView<P>> {
    v.map_values(|r: Ranked<P>| ranked_view(r))
}

/// `a` comes strictly before `b`: a set flag first, then the larger first count, then the
/// larger second count, then the smaller identifier.
pub open spec fn ranks_before<P>(a: RankedView<P>, b: RankedView<P>) -> bool {
    ||| a.0.0 && !b.0.0
    ||| a.0.0 == b.0.0 && a.0.1 > b.0.1
    ||| a.0.0 == b.0.0 && a.0.1 == b.0.1 && a.0.2 > b.0.2
    ||| a.0.0 == b.0.0 && a.0.1 == b.0.1 && a.0.2 == b.0.2 && seq_less(a.1, b.1)
}

/// Two candidates that neither order can tell apart.
pub open spec fn tied<P>(a: RankedView<P>, b: RankedView<P>) -> bool {
    a.0 == b.0 && a.1 == b.1
}

/// `x` put after every element that does not rank after it.
pub open spec fn insert_ranked<P>(s: Seq<RankedView<P>>, x: RankedView<P>) -> Seq<RankedView<P>>
    decreases s.len(),
{
    if s.len() == 0 || !ranks_before(x, s.last()) {
        s.push(x)
    } else {
        insert_ranked(s.drop_last(), x).push(s.last())
    }
}

/// The candidates in rank order, those that tie in their given order (a stable sort).
pub open spec fn rank_all<P>(s: Seq<RankedView<P>>) -> Seq<RankedView<P>>
    decreases s.len(),
{
    if s.len() == 0 {
        Seq::empty()
    } else {
        insert_ranked(rank_all(s.drop_last()), s.last())
    }
}

/// No element ranks before one that precedes it.
pub open spec fn rank_sorted<P>(s: Seq<RankedView<P>>) -> bool {
    forall|i: int, j: int| 0 <= i < j < s.len() ==> !ranks_before(s[j], s[i])
}

/// The anchors of the first `n` candidates in rank order.
pub open spec fn top_hints<P>(s: Seq<RankedView<P>>, n: int) -> Seq<HintView<P>> {
    let r = rank_all(s);
    r.take(if n < r.len() { n } else { r.len() as int }).map_values(|c: RankedView<P>| (c.1, c.2))
}

pub proof fn lemma_ranks_before_irreflexive<P>(a: RankedView<P>)
    ensures
        !ranks_before(a, a),
{
    lemma_seq_less_irreflexive(a.1);
}

pub proof fn lemma_ranks_before_asymmetric<P>(a: RankedView<P>, b: RankedView<P>)
    ensures
        !(ranks_before(a, b) && ranks_before(b, a)),
{
    lemma_seq_less_asymmetric(a.1, b.1);
}

pub proof fn lemma_ranks_before_transitive<P>(a: RankedView<P>, b: RankedView<P>, c: RankedView<P>)
    requires
        ranks_before(a, b),
        ranks_before(b, c),
    ensures
        ranks_before(a, c),
{
    if a.0 == b.0 && b.0 == c.0 {
        lemma_seq_less_transitive(a.1, b.1, c.1);
    }
}

pub proof fn lemma_ranks_total<P>(a: RankedView<P>, b: RankedView<P>)
    ensures
        ranks_before(a, b) || ranks_before(b, a) || tied(a, b),
{
    lemma_seq_less_total(a.1, b.1);
}

/// If `x` ranks before `a`, and `b` does not rank before `a`, `x` ranks before `b`.
proof fn lemma_ranks_chain<P>(x: RankedView<P>, a: RankedView<P>, b: RankedView<P>)
    requires
        ranks_before(x, a),
        !ranks_before(b, a),
    ensures
        ranks_before(x, b),
{
    lemma_ranks_total(a, b);
    if ranks_before(a, b) {
        lemma_ranks_before_transitive(x, a, b);
    }
}

/// The elements after insertion are those before, and `x`.
pub proof fn lemma_insert_ranked_members<P>(s: Seq<RankedView<P>>, x: RankedView<P>)
    ensures
        insert_ranked(s, x).len() == s.len() + 1,
        insert_ranked(s, x).to_multiset() == s.to_multiset().insert(x),
    decreases s.len(),
{
    broadcast use vstd::seq_lib::group_to_multiset_ensures;
    if s.len() == 0 || !ranks_before(x, s.last()) {
    } else {
        let d = s.drop_last();
        lemma_insert_ranked_members(d, x);
        assert(s =~= d.push(s.last()));
        assert(insert_ranked(d, x).push(s.last()).to_multiset() =~= d.to_multiset().insert(x).insert(s.last()));
        assert(s.to_multiset() =~= d.to_multiset().insert(s.last()));
        assert(d.to_multiset().insert(x).insert(s.last()) =~= d.to_multiset().insert(s.last()).insert(x));
    }
}

/// Inserting into a sorted sequence keeps it sorted.
pub proof fn lemma_insert_ranked_sorted<P>(s: Seq<RankedView<P>>, x: RankedView<P>)
    requires
        rank_sorted(s),
    ensures
        rank_sorted(insert_ranked(s, x)),
    decreases s.len(),
{
    broadcast use vstd::seq_lib::group_to_multiset_ensures;
    if s.len() == 0 || !ranks_before(x, s.last()) {
        let r = s.push(x);
        assert forall|i: int| 0 <= i < s.len() implies !ranks_before(x, #[trigger] s[i]) by {
            if i < s.len() - 1 && ranks_before(x, s[i]) {
                assert(!ranks_before(s.last(), s[i]));
                lemma_ranks_chain(x, s[i], s.last());
            }
        }
        assert forall|i: int, j: int| 0 <= i < j < r.len() implies !ranks_before(r[j], r[i]) by {
            if j == s.len() {
                assert(r[i] == s[i]);
            } else {
                assert(r[i] == s[i] && r[j] == s[j]);
            }
        }
    } else {
        let d = s.drop_last();
        assert(rank_sorted(d)) by {
            assert forall|i: int, j: int| 0 <= i < j < d.len() implies !ranks_before(d[j], d[i]) by {
                assert(d[i] == s[i] && d[j] == s[j]);
            }
        }
        lemma_insert_ranked_sorted(d, x);
        lemma_insert_ranked_members(d, x);
        let r0 = insert_ranked(d, x);
        let r = r0.push(s.last());
        assert forall|i: int, j: int| 0 <= i < j < r.len() implies !ranks_before(r[j], r[i]) by {
            if j == r0.len() {
                let e = r0[i];
                assert(r0.to_multiset().contains(e));
                assert(d.to_multiset().insert(x).contains(e));
                if e == x {
                    lemma_ranks_before_asymmetric(x, s.last());
                } else {
                    assert(d.to_multiset().contains(e));
                    assert(d.contains(e));
                    let t = choose|t: int| 0 <= t < d.len() && d[t] == e;
                    assert(s[t] == e);
                    assert(!ranks_before(s.last(), s[t]));
                }
            } else {
                assert(r[i] == r0[i] && r[j] == r0[j]);
            }
        }
    }
}

/// Ranking keeps the candidates and sorts them.
pub proof fn lemma_rank_all<P>(s: Seq<RankedView<P>>)
    ensures
        rank_sorted(rank_all(s)),
        rank_all(s).to_multiset() == s.to_multiset(),
        rank_all(s).len() == s.len(),
    decreases s.len(),
{
    broadcast use vstd::seq_lib::group_to_multiset_ensures;
    if s.len() > 0 {
        let d = s.drop_last();
        lemma_rank_all(d);
        lemma_insert_ranked_sorted(rank_all(d), s.last());
        lemma_insert_ranked_members(rank_all(d), s.last());
        assert(s =~= d.push(s.last()));
    } else {
        assert(rank_all(s).to_multiset() =~= s.to_multiset());
    }
}

fn ranks_before_exec<P>(a: &Ranked<P>, b: &Ranked<P>) -> (r: bool)
    ensures
        r == ranks_before(ranked_view(*a), ranked_view(*b)),
{
    if a.key.0 != b.key.0 {
        return a.key.0;
    }
    if a.key.1 != b.key.1 {
        return a.key.1 > b.key.1;
    }
    if a.key.2 != b.key.2 {
        return a.key.2 > b.key.2;
    }
    str_less(a.hint.node_id.as_str(), b.hint.node_id.as_str())
}

fn copy_ranked<P: Copy>(r: &Ranked<P>) -> (c: Ranked<P>)
    ensures
        ranked_view(c) == ranked_view(*r),
{
    Ranked { key: r.key, hint: PressureSlackHint { node_id: r.hint.node_id.clone(), pressure_bar: r.hint.pressure_bar } }
}

fn insert_ranked_exec<P>(v: &mut Vec<Ranked<P>>, x: Ranked<P>)
    ensures
        ranked_views(final(v)@) == insert_ranked(ranked_views(old(v)@), ranked_view(x)),
{
    let ghost s = ranked_views(v@);
    let ghost xv = ranked_view(x);
    let mut p = v.len();
    assert(s.take(p as int) =~= s);
    assert(insert_ranked(s, xv) + s.skip(p as int) =~= insert_ranked(s, xv));
    while p > 0 && ranks_before_exec(&x, &v[p - 1])
        invariant
            s == ranked_views(v@),
            xv == ranked_view(x),
            p <= v@.len(),
            insert_ranked(s, xv) == insert_ranked(s.take(p as int), xv) + s.skip(p as int),
        decreases p,
    {
        proof {
            let t = s.take(p as int);
            assert(t.last() == s[p - 1]);
            assert(t.drop_last() =~= s.take(p - 1));
            assert(s.skip(p - 1) =~= seq![s[p - 1]] + s.skip(p as int));
            assert(insert_ranked(t, xv) == insert_ranked(s.take(p - 1), xv).push(s[p - 1]));
            assert(insert_ranked(s.take(p - 1), xv).push(s[p - 1]) + s.skip(p as int)
                =~= insert_ranked(s.take(p - 1), xv) + s.skip(p - 1));
        }
        p = p - 1;
    }
    proof {
        let t = s.take(p as int);
        if p > 0 {
            assert(t.last() == s[p - 1]);
        }
        assert(insert_ranked(t, xv) == t.push(xv));
    }
    v.insert(p, x);
    assert(ranked_views(v@) =~= s.take(p as int).push(xv) + s.skip(p as int));
}

/// The candidates in rank order, ties in their given order.
pub fn sort_ranked<P: Copy>(v: &Vec<Ranked<P>>) -> (r: Vec<Ranked<P>>)
    ensures
        ranked_views(r@) == rank_all(ranked_views(v@)),
{
    let ghost s = ranked_views(v@);
    let mut out: Vec<Ranked<P>> = Vec::new();
    assert(ranked_views(out@) =~= rank_all(s.take(0)));
    let mut i: usize = 0;
    while i < v.len()
        invariant
            s == ranked_views(v@),
            i <= v@.len(),
            ranked_views(out@) == rank_all(s.take(i as int)),
        decreases v@.len() - i,
    {
        let c = copy_ranked(&v[i]);
        assert(s.take(i + 1).drop_last() =~= s.take(i as int));
        assert(s.take(i + 1).last() == ranked_view(c));
        insert_ranked_exec(&mut out, c);
        i = i + 1;
    }
    assert(s.take(v@.len() as int) =~= s);
    out
}

/// The anchors of the first `n` candidates in rank order.
pub fn top_ranked<P: Copy>(v: &Vec<Ranked<P>>, n: usize) -> (r: Vec<PressureSlackHint<P>>)
    ensures
        r@.map_values(|h: PressureSlackHint<P>| hint_view(h)) == top_hints(ranked_views(v@), n as int),
{
    let sorted = sort_ranked(v);
    let ghost s = ranked_views(sorted@);
    let m = if n < sorted.len() { n } else { sorted.len() };
    let mut out: Vec<PressureSlackHint<P>> = Vec::new();
    let mut i: usize = 0;
    while i < m
        invariant
            s == ranked_views(sorted@),
            m <= sorted@.len(),
            i <= m,
            out@.map_values(|h: PressureSlackHint<P>| hint_view(h)) == s.take(i as int).map_values(
                |c: RankedView<P>| (c.1, c.2),
            ),
        decreases m - i,
    {
        let h = &sorted[i].hint;
        let ghost before = out@.map_values(|h: PressureSlackHint<P>| hint_view(h));
        out.push(PressureSlackHint { node_id: h.node_id.clone(), pressure_bar: h.pressure_bar });
        assert(out@.map_values(|h: PressureSlackHint<P>| hint_view(h)) =~= before.push((s[i as int].1, s[i as int].2)));
        assert(s.take(i + 1).map_values(|c: RankedView<P>| (c.1, c.2)) =~= s.take(i as int).map_values(
            |c: RankedView<P>| (c.1, c.2),
        ).push((s[i as int].1, s[i as int].2)));
        i = i + 1;
    }
    out
}

/// The anchors taken are at most `n`, come from the candidates, and are in rank order.
pub proof fn lemma_top_hints<P>(s: Seq<RankedView<P>>, n: int)
    requires
        n >= 0,
    ensures
        top_hints(s, n).len() == if n < s.len() { n } else { s.len() as int },
        forall|k: int| 0 <= k < top_hints(s, n).len() ==> exists|i: int| 0 <= i < s.len() && #[trigger] top_hints(s, n)[k] == (s[i].1, s[i].2),
        forall|k: int, l: int| 0 <= k < l < top_hints(s, n).len() ==> !ranks_before(rank_all(s)[l], rank_all(s)[k]),
        forall|k: int| 0 <= k < top_hints(s, n).len() ==> #[trigger] top_hints(s, n)[k] == (rank_all(s)[k].1, rank_all(s)[k].2),
{
    broadcast use vstd::seq_lib::group_to_multiset_ensures;
    lemma_rank_all(s);
    let r = rank_all(s);
    assert forall|k: int| 0 <= k < top_hints(s, n).len() implies exists|i: int| 0 <= i < s.len() && #[trigger] top_hints(s, n)[k] == (s[i].1, s[i].2) by {
        assert(r.to_multiset().contains(r[k]));
        assert(s.to_multiset().contains(r[k]));
        assert(s.contains(r[k]));
        let i = choose|i: int| 0 <= i < s.len() && s[i] == r[k];
        assert(top_hints(s, n)[k] == (s[i].1, s[i].2));
    }
}

} // verus!
