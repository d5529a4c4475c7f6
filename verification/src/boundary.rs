//! GasLib entry/exit pairs at one physical point: a `sink_*` and a `source_*` node joined
//! by a short pipe.

use vstd::prelude::*;

use crate::connectivity::NetworkArc;
use crate::diff::{lemma_seq_less_asymmetric, lemma_seq_less_transitive, seq_less, str_less};
use crate::labels::ConnectionKind;
use crate::text::{chars_of, str_eq};

verus! {

#[derive(Debug, Clone, PartialEq, Eq)]
pub struct ShortPipeBoundaryPair {
    pub shortpipe_id: String,
    pub sink_id: String,
    pub source_id: String,
}

pub type PairView = (Seq<char>, Seq<char>, Seq<char>);

pub open spec fn pair_view(p: ShortPipeBoundaryPair) -> PairView {
    (p.shortpipe_id@, p.sink_id@, p.source_id@)
}

pub open spec fn pairs_view(v: Seq<ShortPipeBoundaryPair>) -> Seq<PairView> {
    v.map_values(|p: ShortPipeBoundaryPair| pair_view(p))
}

pub open spec fn has_prefix(s: Seq<char>, prefix: Seq<char>) -> bool {
    s.len() >= prefix.len() && s.take(prefix.len() as int) == prefix
}

/// The pair an arc forms: a short pipe from a `sink_` node to a `source_` node, or the
/// other way round.
pub open spec fn boundary_pair_of(a: NetworkArc) -> Option<PairView> {
    if a.kind != ConnectionKind::ShortPipe {
        None
    } else if has_prefix(a.from@, "sink_"@) && has_prefix(a.to@, "source_"@) {
        Some((a.id@, a.from@, a.to@))
    } else if has_prefix(a.from@, "source_"@) && has_prefix(a.to@, "sink_"@) {
        Some((a.id@, a.to@, a.from@))
    } else {
        None
    }
}

/// Order of pairs: by sink, then by source.
pub open spec fn pair_less(a: PairView, b: PairView) -> bool {
    seq_less(a.1, b.1) || (a.1 == b.1 && seq_less(a.2, b.2))
}

/// `x` inserted after every element that does not order after it.
pub open spec fn insert_stable(s: Seq<PairView>, x: PairView) -> Seq<PairView>
    decreases s.len(),
{
    if s.len() == 0 || !pair_less(x, s.last()) {
        s.push(x)
    } else {
        insert_stable(s.drop_last(), x).push(s.last())
    }
}

/// The pairs of the arcs, in arc order, stably sorted by sink then source.
pub open spec fn boundary_pairs(arcs: Seq<NetworkArc>) -> Seq<PairView>
    decreases arcs.len(),
{
    if arcs.len() == 0 {
        Seq::empty()
    } else {
        let r = boundary_pairs(arcs.drop_last());
        match boundary_pair_of(arcs.last()) {
            Some(p) => insert_stable(r, p),
            None => r,
        }
    }
}

/// Whether the pairs are ordered (by sink, then source).
pub open spec fn pairs_sorted(s: Seq<PairView>) -> bool {
    forall|i: int, j: int| 0 <= i < j < s.len() ==> !pair_less(s[j], s[i])
}

pub proof fn lemma_pair_less_transitive(a: PairView, b: PairView, c: PairView)
    requires
        pair_less(a, b),
        pair_less(b, c),
    ensures
        pair_less(a, c),
{
    if seq_less(a.1, b.1) && seq_less(b.1, c.1) {
        lemma_seq_less_transitive(a.1, b.1, c.1);
    } else if a.1 == b.1 && b.1 == c.1 {
        lemma_seq_less_transitive(a.2, b.2, c.2);
    }
}

pub proof fn lemma_pair_less_asymmetric(a: PairView, b: PairView)
    ensures
        !(pair_less(a, b) && pair_less(b, a)),
{
    lemma_seq_less_asymmetric(a.1, b.1);
    lemma_seq_less_asymmetric(a.2, b.2);
}

/// Inserting into a sorted sequence keeps it sorted.
pub proof fn lemma_insert_sorted(s: Seq<PairView>, x: PairView)
    requires
        pairs_sorted(s),
    ensures
        pairs_sorted(insert_stable(s, x)),
        insert_stable(s, x).len() == s.len() + 1,
    decreases s.len(),
{
    if s.len() == 0 || !pair_less(x, s.last()) {
        let r = s.push(x);
        assert forall|i: int| 0 <= i < s.len() implies !pair_less(x, #[trigger] s[i]) by {
            if i < s.len() - 1 && pair_less(x, s[i]) {
                assert(!pair_less(s.last(), s[i]));
                lemma_pair_less_chain(x, s[i], s.last());
            }
        }
        assert forall|i: int, j: int| 0 <= i < j < r.len() implies !pair_less(r[j], r[i]) by {
            if j == s.len() {
                assert(r[i] == s[i]);
                assert(!pair_less(x, s[i]));
            } else {
                assert(r[i] == s[i] && r[j] == s[j]);
            }
        }
    } else {
        let d = s.drop_last();
        assert(pairs_sorted(d)) by {
            assert forall|i: int, j: int| 0 <= i < j < d.len() implies !pair_less(d[j], d[i]) by {
                assert(d[i] == s[i] && d[j] == s[j]);
            }
        }
        lemma_insert_sorted(d, x);
        lemma_insert_members(d, x);
        let r0 = insert_stable(d, x);
        let r = r0.push(s.last());
        assert forall|i: int, j: int| 0 <= i < j < r.len() implies !pair_less(r[j], r[i]) by {
            if j == r0.len() {
                let e = r0[i];
                if e == x {
                    lemma_pair_less_asymmetric(x, s.last());
                } else {
                    let t = choose|t: int| 0 <= t < d.len() && d[t] == e;
                    assert(s[t] == e);
                    assert(!pair_less(s.last(), s[t]));
                }
            }
        }
    }
}

/// If `x` orders before `a`, and `b` does not order before `a`, `x` orders before `b`.
proof fn lemma_pair_less_chain(x: PairView, a: PairView, b: PairView)
    requires
        pair_less(x, a),
        !pair_less(b, a),
    ensures
        pair_less(x, b),
{
    lemma_pair_total(a, b);
    if pair_less(a, b) {
        lemma_pair_less_transitive(x, a, b);
    } else {
        assert(a.1 == b.1 && a.2 == b.2);
        assert(pair_less(x, b));
    }
}

pub proof fn lemma_pair_total(a: PairView, b: PairView)
    ensures
        pair_less(a, b) || pair_less(b, a) || (a.1 == b.1 && a.2 == b.2),
{
    crate::diff::lemma_seq_less_total(a.1, b.1);
    crate::diff::lemma_seq_less_total(a.2, b.2);
}

/// The elements after insertion are those before, and `x`.
pub proof fn lemma_insert_members(s: Seq<PairView>, x: PairView)
    ensures
        forall|i: int| 0 <= i < insert_stable(s, x).len() ==> #[trigger] insert_stable(s, x)[i] == x
            || exists|t: int| 0 <= t < s.len() && s[t] == insert_stable(s, x)[i],
    decreases s.len(),
{
    if s.len() == 0 || !pair_less(x, s.last()) {
        let r = s.push(x);
        assert forall|i: int| 0 <= i < r.len() implies #[trigger] r[i] == x || exists|t: int| 0 <= t < s.len() && s[t] == r[i] by {
            if i < s.len() {
                assert(s[i] == r[i]);
            }
        }
    } else {
        let d = s.drop_last();
        lemma_insert_members(d, x);
        let r0 = insert_stable(d, x);
        let r = r0.push(s.last());
        assert forall|i: int| 0 <= i < r.len() implies #[trigger] r[i] == x || exists|t: int| 0 <= t < s.len() && s[t] == r[i] by {
            if i == r0.len() {
                assert(s[s.len() - 1] == r[i]);
            } else if r0[i] != x {
                let t = choose|t: int| 0 <= t < d.len() && d[t] == r0[i];
                assert(s[t] == r[i]);
            }
        }
    }
}

pub(crate) fn has_prefix_exec(s: &String, prefix: &str) -> (r: bool)
    ensures
        r == has_prefix(s@, prefix@),
{
    let v = chars_of(s.as_str());
    let p = chars_of(prefix);
    if v.len() < p.len() {
        return false;
    }
    let mut i: usize = 0;
    while i < p.len()
        invariant
            v@ == s@,
            p@ == prefix@,
            p@.len() <= v@.len(),
            i <= p@.len(),
            forall|j: int| 0 <= j < i ==> v@[j] == p@[j],
        decreases p@.len() - i,
    {
        if v[i] != p[i] {
            assert(v@.take(p@.len() as int)[i as int] != p@[i as int]);
            assert(v@.take(p@.len() as int) != p@);
            return false;
        }
        i = i + 1;
    }
    assert(v@.take(p@.len() as int) =~= p@);
    true
}

fn pair_less_exec(a: &ShortPipeBoundaryPair, b: &ShortPipeBoundaryPair) -> (r: bool)
    ensures
        r == pair_less(pair_view(*a), pair_view(*b)),
{
    if str_less(a.sink_id.as_str(), b.sink_id.as_str()) {
        true
    } else if str_eq(a.sink_id.as_str(), b.sink_id.as_str()) {
        str_less(a.source_id.as_str(), b.source_id.as_str())
    } else {
        false
    }
}

fn insert_stable_exec(v: &mut Vec<ShortPipeBoundaryPair>, x: ShortPipeBoundaryPair)
    ensures
        pairs_view(final(v)@) == insert_stable(pairs_view(old(v)@), pair_view(x)),
{
    let ghost s = pairs_view(v@);
    let ghost xv = pair_view(x);
    let mut p = v.len();
    assert(s.take(p as int) =~= s);
    assert(insert_stable(s, xv) + s.skip(p as int) =~= insert_stable(s, xv));
    while p > 0 && pair_less_exec(&x, &v[p - 1])
        invariant
            s == pairs_view(v@),
            xv == pair_view(x),
            p <= v@.len(),
            insert_stable(s, xv) == insert_stable(s.take(p as int), xv) + s.skip(p as int),
        decreases p,
    {
        proof {
            let t = s.take(p as int);
            assert(t.last() == s[p - 1]);
            assert(t.drop_last() =~= s.take(p - 1));
            assert(s.skip(p - 1) =~= seq![s[p - 1]] + s.skip(p as int));
            assert(insert_stable(t, xv) == insert_stable(s.take(p - 1), xv).push(s[p - 1]));
            assert(insert_stable(s.take(p - 1), xv).push(s[p - 1]) + s.skip(p as int)
                =~= insert_stable(s.take(p - 1), xv) + s.skip(p - 1));
        }
        p = p - 1;
    }
    proof {
        let t = s.take(p as int);
        if p > 0 {
            assert(t.last() == s[p - 1]);
        }
        assert(insert_stable(t, xv) == t.push(xv));
    }
    v.insert(p, x);
    assert(pairs_view(v@) =~= s.take(p as int).push(xv) + s.skip(p as int));
}

/// The `sink_*` / `source_*` pairs joined by short pipes, ordered by sink then source
/// (arcs in their order where those are equal).
pub fn detect_shortpipe_boundary_pairs(arcs: &Vec<NetworkArc>) -> (r: Vec<ShortPipeBoundaryPair>)
    ensures
        pairs_view(r@) == boundary_pairs(arcs@),
        pairs_sorted(pairs_view(r@)),
{
    proof {
        reveal_strlit("sink_");
        reveal_strlit("source_");
    }
    let mut out: Vec<ShortPipeBoundaryPair> = Vec::new();
    assert(pairs_view(out@) =~= Seq::<PairView>::empty());
    let mut i: usize = 0;
    while i < arcs.len()
        invariant
            i <= arcs@.len(),
            pairs_view(out@) == boundary_pairs(arcs@.take(i as int)),
            pairs_sorted(pairs_view(out@)),
        decreases arcs@.len() - i,
    {
        let a = &arcs[i];
        assert(arcs@.take(i + 1).drop_last() =~= arcs@.take(i as int));
        assert(arcs@.take(i + 1).last() == *a);
        if a.kind == ConnectionKind::ShortPipe {
            let pair = if has_prefix_exec(&a.from, "sink_") && has_prefix_exec(&a.to, "source_") {
                Some(ShortPipeBoundaryPair { shortpipe_id: a.id.clone(), sink_id: a.from.clone(), source_id: a.to.clone() })
            } else if has_prefix_exec(&a.from, "source_") && has_prefix_exec(&a.to, "sink_") {
                Some(ShortPipeBoundaryPair { shortpipe_id: a.id.clone(), sink_id: a.to.clone(), source_id: a.from.clone() })
            } else {
                None
            };
            match pair {
                Some(p) => {
                    proof {
                        lemma_insert_sorted(pairs_view(out@), pair_view(p));
                    }
                    insert_stable_exec(&mut out, p);
                },
                None => {},
            }
        }
        i = i + 1;
    }
    assert(arcs@.take(arcs@.len() as int) =~= arcs@);
    out
}

/// The other end of the first pair (in order) that has `x` as sink or as source.
pub open spec fn partner_in(ps: Seq<PairView>, x: Seq<char>) -> Option<Seq<char>>
    decreases ps.len(),
{
    if ps.len() == 0 {
        None
    } else if ps[0].1 == x {
        Some(ps[0].2)
    } else if ps[0].2 == x {
        Some(ps[0].1)
    } else {
        partner_in(ps.drop_first(), x)
    }
}

/// The node joined to `node_id` by a sink/source short pipe: the other end of the first
/// pair, in the order of `detect_shortpipe_boundary_pairs`, that holds `node_id`.
pub fn shortpipe_partner_for(arcs: &Vec<NetworkArc>, node_id: &str) -> (r: Option<String>)
    ensures
        match r {
            Some(p) => partner_in(boundary_pairs(arcs@), node_id@) == Some(p@),
            None => partner_in(boundary_pairs(arcs@), node_id@) is None,
        },
{
    let pairs = detect_shortpipe_boundary_pairs(arcs);
    let ghost ps = pairs_view(pairs@);
    let mut i: usize = 0;
    assert(ps.skip(0) =~= ps);
    while i < pairs.len()
        invariant
            ps == pairs_view(pairs@),
            ps == boundary_pairs(arcs@),
            i <= pairs@.len(),
            partner_in(ps, node_id@) == partner_in(ps.skip(i as int), node_id@),
        decreases pairs@.len() - i,
    {
        let p = &pairs[i];
        assert(ps.skip(i as int)[0] == pair_view(*p));
        assert(ps.skip(i as int).drop_first() =~= ps.skip(i + 1));
        if str_eq(p.sink_id.as_str(), node_id) {
            return Some(p.source_id.clone());
        }
        if str_eq(p.source_id.as_str(), node_id) {
            return Some(p.sink_id.clone());
        }
        i = i + 1;
    }
    None
}

} // verus!
