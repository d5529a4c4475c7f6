//! Choosing one decision per group of a combined-decisions file: the combinations to try,
//! and routings given by decision identifiers.

use vstd::prelude::*;

use crate::cdf::{
    apply_cdf_decisions, apply_decisions, decision_refs_view, decision_view, group_view, groups_view,
    strs_view, targets_view, CdfDecision, CombinedDecisions, DecisionTarget, DecisionView, GroupView,
};
use crate::text::{append, append_usize, decimal_text, str_eq};

verus! {

/// A group counts for at least one choice, even when it has no decision.
pub open spec fn choices(n: nat) -> nat {
    if n < 1 {
        1
    } else {
        n
    }
}

pub open spec fn group_sizes(gs: Seq<GroupView>) -> Seq<nat> {
    gs.map_values(|g: GroupView| g.1.len())
}

/// The number of ways to pick one decision per group.
pub open spec fn product_of_choices(sizes: Seq<nat>) -> nat
    decreases sizes.len(),
{
    if sizes.len() == 0 {
        1
    } else {
        product_of_choices(sizes.drop_last()) * choices(sizes.last())
    }
}

/// `p` followed by each index below `k`.
pub open spec fn row(p: Seq<usize>, k: nat) -> Seq<Seq<usize>> {
    Seq::new(k, |j: int| p.push(j as usize))
}

/// Each prefix of `prev`, in order, followed by each index below `k`.
pub open spec fn extend(prev: Seq<Seq<usize>>, k: nat) -> Seq<Seq<usize>>
    decreases prev.len(),
{
    if prev.len() == 0 {
        Seq::empty()
    } else {
        extend(prev.drop_last(), k) + row(prev.last(), k)
    }
}

/// Every index vector, one index per group below its number of choices, in
/// lexicographic order (the last group varying fastest).
pub open spec fn combinations(sizes: Seq<nat>) -> Seq<Seq<usize>>
    decreases sizes.len(),
{
    if sizes.len() == 0 {
        seq![Seq::empty()]
    } else {
        extend(combinations(sizes.drop_last()), choices(sizes.last()))
    }
}

pub proof fn lemma_extend_len(prev: Seq<Seq<usize>>, k: nat)
    ensures
        extend(prev, k).len() == prev.len() * k,
    decreases prev.len(),
{
    if prev.len() > 0 {
        lemma_extend_len(prev.drop_last(), k);
        let n = prev.len() as int;
        assert((n - 1) * k + k == n * k) by (nonlinear_arith);
    }
}

/// There are as many combinations as the product of the choices.
pub proof fn lemma_combinations_count(sizes: Seq<nat>)
    ensures
        combinations(sizes).len() == product_of_choices(sizes),
    decreases sizes.len(),
{
    if sizes.len() > 0 {
        lemma_combinations_count(sizes.drop_last());
        lemma_extend_len(combinations(sizes.drop_last()), choices(sizes.last()));
    }
}

proof fn lemma_product_prefix(sizes: Seq<nat>, i: int)
    requires
        0 <= i <= sizes.len(),
    ensures
        product_of_choices(sizes.take(i)) <= product_of_choices(sizes),
        product_of_choices(sizes.take(i)) >= 1,
    decreases sizes.len() - i,
{
    if i < sizes.len() {
        lemma_product_prefix(sizes, i + 1);
        lemma_product_ge_one(sizes.take(i));
        let t = sizes.take(i + 1);
        assert(t.drop_last() =~= sizes.take(i));
        let a = product_of_choices(sizes.take(i));
        let c = choices(t.last());
        assert(a <= a * c) by (nonlinear_arith)
            requires
                c >= 1,
                a >= 0,
        ;
        assert(a * c >= 1) by (nonlinear_arith)
            requires
                c >= 1,
                a >= 1,
        ;
    } else {
        assert(sizes.take(i) =~= sizes);
        lemma_product_ge_one(sizes);
    }
}

proof fn lemma_product_ge_one(sizes: Seq<nat>)
    ensures
        product_of_choices(sizes) >= 1,
    decreases sizes.len(),
{
    if sizes.len() > 0 {
        lemma_product_ge_one(sizes.drop_last());
        let a = product_of_choices(sizes.drop_last());
        let c = choices(sizes.last());
        assert(a * c >= 1) by (nonlinear_arith)
            requires
                c >= 1,
                a >= 1,
        ;
    }
}

fn sizes_of(cdf: &CombinedDecisions) -> (r: Vec<usize>)
    ensures
        r@.map_values(|x: usize| x as nat) == group_sizes(groups_view(cdf.groups@)),
{
    let ghost gs = groups_view(cdf.groups@);
    let mut r: Vec<usize> = Vec::new();
    let mut i: usize = 0;
    while i < cdf.groups.len()
        invariant
            gs == groups_view(cdf.groups@),
            i <= cdf.groups@.len(),
            r@.map_values(|x: usize| x as nat) == group_sizes(gs).take(i as int),
        decreases cdf.groups@.len() - i,
    {
        let ghost before = r@.map_values(|x: usize| x as nat);
        let n = cdf.groups[i].decisions.len();
        r.push(n);
        assert(r@.map_values(|x: usize| x as nat) =~= before.push(n as nat));
        assert(group_view(cdf.groups@[i as int]).1.len() == cdf.groups@[i as int].decisions@.len());
        assert(gs[i as int] == group_view(cdf.groups@[i as int]));
        assert(group_sizes(gs).take(i + 1) =~= group_sizes(gs).take(i as int).push(n as nat));
        assert(r@.map_values(|x: usize| x as nat) =~= group_sizes(gs).take(i + 1));
        i = i + 1;
    }
    assert(group_sizes(gs).take(cdf.groups@.len() as int) =~= group_sizes(gs));
    r
}

/// The number of ways to pick one decision per group (a group without decisions counting
/// once); the product must fit in a `usize`.
pub fn total_combinations(cdf: &CombinedDecisions) -> (r: usize)
    requires
        product_of_choices(group_sizes(groups_view(cdf.groups@))) <= usize::MAX,
    ensures
        r == product_of_choices(group_sizes(groups_view(cdf.groups@))),
{
    let sizes = sizes_of(cdf);
    let ghost sv = sizes@.map_values(|x: usize| x as nat);
    let mut acc: usize = 1;
    let mut i: usize = 0;
    assert(sv.take(0) =~= Seq::<nat>::empty());
    while i < sizes.len()
        invariant
            sv == sizes@.map_values(|x: usize| x as nat),
            product_of_choices(sv) <= usize::MAX,
            i <= sizes@.len(),
            acc == product_of_choices(sv.take(i as int)),
        decreases sizes@.len() - i,
    {
        let c: usize = if sizes[i] < 1 { 1 } else { sizes[i] };
        proof {
            assert(sv.take(i + 1).drop_last() =~= sv.take(i as int));
            assert(sv.take(i + 1).last() == sizes@[i as int] as nat);
            lemma_product_prefix(sv, i + 1);
        }
        acc = acc * c;
        i = i + 1;
    }
    assert(sv.take(sizes@.len() as int) =~= sv);
    acc
}

pub open spec fn index_rows(v: Seq<Vec<usize>>) -> Seq<Seq<usize>> {
    v.map_values(|r: Vec<usize>| r@)
}

/// Every way to pick one decision per group, as index vectors (see `combinations`).
pub fn enumerate_index_combinations(cdf: &CombinedDecisions) -> (r: Vec<Vec<usize>>)
    ensures
        index_rows(r@) == combinations(group_sizes(groups_view(cdf.groups@))),
{
    let sizes = sizes_of(cdf);
    let ghost sv = sizes@.map_values(|x: usize| x as nat);
    let mut out: Vec<Vec<usize>> = Vec::new();
    out.push(Vec::new());
    assert(index_rows(out@) =~= seq![Seq::<usize>::empty()]);
    assert(sv.take(0) =~= Seq::<nat>::empty());
    let mut g: usize = 0;
    while g < sizes.len()
        invariant
            sv == sizes@.map_values(|x: usize| x as nat),
            g <= sizes@.len(),
            index_rows(out@) == combinations(sv.take(g as int)),
        decreases sizes@.len() - g,
    {
        let k: usize = if sizes[g] < 1 { 1 } else { sizes[g] };
        let ghost prev = index_rows(out@);
        let mut next: Vec<Vec<usize>> = Vec::new();
        let mut i: usize = 0;
        assert(index_rows(next@) =~= extend(prev.take(0), k as nat));
        while i < out.len()
            invariant
                prev == index_rows(out@),
                i <= out@.len(),
                index_rows(next@) == extend(prev.take(i as int), k as nat),
            decreases out@.len() - i,
        {
            let mut j: usize = 0;
            let ghost base = index_rows(next@);
            assert(base + row(prev[i as int], k as nat).take(0) =~= base);
            while j < k
                invariant
                    prev == index_rows(out@),
                    i < out@.len(),
                    j <= k,
                    index_rows(next@) == base + row(prev[i as int], k as nat).take(j as int),
                decreases k - j,
            {
                let mut v = out[i].clone();
                v.push(j);
                let ghost before = index_rows(next@);
                next.push(v);
                assert(index_rows(next@) =~= before.push(v@));
                assert(row(prev[i as int], k as nat).take(j + 1) =~= row(prev[i as int], k as nat).take(j as int).push(prev[i as int].push(j)));
                assert(index_rows(next@) =~= base + row(prev[i as int], k as nat).take(j + 1));
                j = j + 1;
            }
            assert(row(prev[i as int], k as nat).take(k as int) =~= row(prev[i as int], k as nat));
            assert(prev.take(i + 1).drop_last() =~= prev.take(i as int));
            assert(prev.take(i + 1).last() == prev[i as int]);
            i = i + 1;
        }
        assert(prev.take(out@.len() as int) =~= prev);
        out = next;
        proof {
            assert(sv.take(g + 1).drop_last() =~= sv.take(g as int));
            assert(sv.take(g + 1).last() == sizes@[g as int] as nat);
        }
        g = g + 1;
    }
    assert(sv.take(sizes@.len() as int) =~= sv);
    out
}

/// The first decision (over the groups in order) named `id`.
pub open spec fn first_in(ds: Seq<DecisionView>, id: Seq<char>) -> Option<DecisionView>
    decreases ds.len(),
{
    if ds.len() == 0 {
        None
    } else if ds[0].0 == id {
        Some(ds[0])
    } else {
        first_in(ds.drop_first(), id)
    }
}

pub open spec fn first_decision(gs: Seq<GroupView>, id: Seq<char>) -> Option<DecisionView>
    decreases gs.len(),
{
    if gs.len() == 0 {
        None
    } else {
        match first_in(gs[0].1, id) {
            Some(d) => Some(d),
            None => first_decision(gs.drop_first(), id),
        }
    }
}

/// For each identifier in order, the first decision of that name; unknown names are skipped.
pub open spec fn found_decisions(gs: Seq<GroupView>, ids: Seq<Seq<char>>) -> Seq<DecisionView>
    decreases ids.len(),
{
    if ids.len() == 0 {
        Seq::empty()
    } else {
        let rest = found_decisions(gs, ids.drop_last());
        match first_decision(gs, ids.last()) {
            Some(d) => rest.push(d),
            None => rest,
        }
    }
}

fn find_first<'a>(cdf: &'a CombinedDecisions, id: &str) -> (r: Option<&'a CdfDecision>)
    ensures
        match r {
            Some(d) => first_decision(groups_view(cdf.groups@), id@) == Some(decision_view(*d)),
            None => first_decision(groups_view(cdf.groups@), id@) is None,
        },
{
    let ghost gs = groups_view(cdf.groups@);
    let mut gi: usize = 0;
    assert(gs.skip(0) =~= gs);
    while gi < cdf.groups.len()
        invariant
            gs == groups_view(cdf.groups@),
            gi <= cdf.groups@.len(),
            first_decision(gs, id@) == first_decision(gs.skip(gi as int), id@),
        decreases cdf.groups@.len() - gi,
    {
        let g = &cdf.groups[gi];
        let ghost ds = group_view(*g).1;
        assert(gs.skip(gi as int)[0] == group_view(*g));
        assert(gs.skip(gi as int).drop_first() =~= gs.skip(gi + 1));
        let mut di: usize = 0;
        assert(ds.skip(0) =~= ds);
        while di < g.decisions.len()
            invariant
                gs == groups_view(cdf.groups@),
                gi < cdf.groups@.len(),
                first_decision(gs, id@) == first_decision(gs.skip(gi as int), id@),
                gs.skip(gi as int)[0] == group_view(*g),
                ds == group_view(*g).1,
                di <= g.decisions@.len(),
                first_in(ds, id@) == first_in(ds.skip(di as int), id@),
            decreases g.decisions@.len() - di,
        {
            let d = &g.decisions[di];
            assert(ds.skip(di as int)[0] == decision_view(*d));
            assert(ds.skip(di as int).drop_first() =~= ds.skip(di + 1));
            if str_eq(d.id.as_str(), id) {
                return Some(d);
            }
            di = di + 1;
        }
        assert(ds.skip(g.decisions@.len() as int) =~= Seq::<DecisionView>::empty());
        gi = gi + 1;
    }
    assert(gs.skip(cdf.groups@.len() as int) =~= Seq::<GroupView>::empty());
    None
}

/// The groups and decisions of a routing.
#[derive(Debug, Clone, PartialEq, Eq)]
pub struct RoutingChoice {
    pub group_ids: Vec<String>,
    pub decision_ids: Vec<String>,
}

/// A routing that does not name one decision per group.
#[derive(Debug, Clone, Copy, PartialEq, Eq, Structural)]
pub struct RoutingError {
    pub expected: usize,
    pub got: usize,
}

impl RoutingError {
    pub fn message(&self) -> (m: String)
        ensures
            m@ == "expected "@ + decimal_text(self.expected as nat) + " decision ids (one per group), got "@
                + decimal_text(self.got as nat),
    {
        let mut m = String::new();
        append(&mut m, "expected ");
        append_usize(&mut m, self.expected);
        append(&mut m, " decision ids (one per group), got ");
        append_usize(&mut m, self.got);
        m
    }
}

pub open spec fn ids_of_groups(gs: Seq<GroupView>) -> Seq<Seq<char>> {
    gs.map_values(|g: GroupView| g.0)
}

pub open spec fn ids_of_decisions(ds: Seq<DecisionView>) -> Seq<Seq<char>> {
    ds.map_values(|d: DecisionView| d.0)
}

pub open spec fn texts(v: Seq<String>) -> Seq<Seq<char>> {
    v.map_values(|s: String| s@)
}

/// Applies the decisions named by `ids` (the first of each name), which must name one
/// decision per group; else nothing changes and the error gives both counts.
pub fn apply_cdf_routing_by_id(
    targets: &mut Vec<DecisionTarget<String>>,
    cdf: &CombinedDecisions,
    ids: &Vec<&str>,
) -> (r: Result<RoutingChoice, RoutingError>)
    ensures
        ({
            let found = found_decisions(groups_view(cdf.groups@), strs_view(ids@));
            match r {
                Ok(c) => found.len() == cdf.groups@.len()
                    && targets_view(final(targets)@) == apply_decisions(targets_view(old(targets)@), found)
                    && texts(c.group_ids@) == ids_of_groups(groups_view(cdf.groups@))
                    && texts(c.decision_ids@) == ids_of_decisions(found),
                Err(e) => found.len() != cdf.groups@.len() && e.expected == cdf.groups@.len()
                    && e.got == found.len() && final(targets)@ == old(targets)@,
            }
        }),
{
    let ghost gs = groups_view(cdf.groups@);
    let mut found: Vec<&CdfDecision> = Vec::new();
    let mut i: usize = 0;
    assert(decision_refs_view(found@) =~= Seq::<DecisionView>::empty());
    while i < ids.len()
        invariant
            gs == groups_view(cdf.groups@),
            i <= ids@.len(),
            decision_refs_view(found@) == found_decisions(gs, strs_view(ids@).take(i as int)),
        decreases ids@.len() - i,
    {
        assert(strs_view(ids@).take(i + 1).drop_last() =~= strs_view(ids@).take(i as int));
        assert(strs_view(ids@).take(i + 1).last() == ids@[i as int]@);
        match find_first(cdf, ids[i]) {
            Some(d) => {
                let ghost before = decision_refs_view(found@);
                found.push(d);
                assert(decision_refs_view(found@) =~= before.push(decision_view(*d)));
            },
            None => {},
        }
        i = i + 1;
    }
    assert(strs_view(ids@).take(ids@.len() as int) =~= strs_view(ids@));
    assert(found@.len() == decision_refs_view(found@).len());
    if found.len() != cdf.groups.len() {
        return Err(RoutingError { expected: cdf.groups.len(), got: found.len() });
    }
    apply_cdf_decisions(targets, &found);
    let mut group_ids: Vec<String> = Vec::new();
    let mut g: usize = 0;
    while g < cdf.groups.len()
        invariant
            gs == groups_view(cdf.groups@),
            g <= cdf.groups@.len(),
            texts(group_ids@) == ids_of_groups(gs).take(g as int),
        decreases cdf.groups@.len() - g,
    {
        let ghost before = texts(group_ids@);
        let id = cdf.groups[g].id.clone();
        group_ids.push(id);
        assert(texts(group_ids@) =~= before.push(id@));
        assert(gs[g as int] == group_view(cdf.groups@[g as int]));
        assert(ids_of_groups(gs).take(g + 1) =~= ids_of_groups(gs).take(g as int).push(id@));
        assert(texts(group_ids@) =~= ids_of_groups(gs).take(g + 1));
        g = g + 1;
    }
    assert(ids_of_groups(gs).take(cdf.groups@.len() as int) =~= ids_of_groups(gs));
    let ghost fv = decision_refs_view(found@);
    let mut decision_ids: Vec<String> = Vec::new();
    let mut k: usize = 0;
    while k < found.len()
        invariant
            fv == decision_refs_view(found@),
            k <= found@.len(),
            texts(decision_ids@) == ids_of_decisions(fv).take(k as int),
        decreases found@.len() - k,
    {
        let ghost before = texts(decision_ids@);
        let id = found[k].id.clone();
        decision_ids.push(id);
        assert(texts(decision_ids@) =~= before.push(id@));
        assert(fv[k as int] == decision_view(*found@[k as int]));
        assert(ids_of_decisions(fv).take(k + 1) =~= ids_of_decisions(fv).take(k as int).push(id@));
        assert(texts(decision_ids@) =~= ids_of_decisions(fv).take(k + 1));
        k = k + 1;
    }
    assert(ids_of_decisions(fv).take(found@.len() as int) =~= ids_of_decisions(fv));
    Ok(RoutingChoice { group_ids, decision_ids })
}

/// The first decision of each group that has one, in group order.
pub open spec fn first_views(gs: Seq<GroupView>) -> Seq<DecisionView>
    decreases gs.len(),
{
    if gs.len() == 0 {
        Seq::empty()
    } else {
        let rest = first_views(gs.drop_last());
        if gs.last().1.len() > 0 {
            rest.push(gs.last().1[0])
        } else {
            rest
        }
    }
}

/// The first decision of each group that has one, in group order.
pub fn first_decisions(cdf: &CombinedDecisions) -> (r: Vec<&CdfDecision>)
    ensures
        decision_refs_view(r@) == first_views(groups_view(cdf.groups@)),
{
    let ghost gs = groups_view(cdf.groups@);
    let mut r: Vec<&CdfDecision> = Vec::new();
    let mut g: usize = 0;
    assert(decision_refs_view(r@) =~= first_views(gs.take(0)));
    while g < cdf.groups.len()
        invariant
            gs == groups_view(cdf.groups@),
            g <= cdf.groups@.len(),
            decision_refs_view(r@) == first_views(gs.take(g as int)),
        decreases cdf.groups@.len() - g,
    {
        assert(gs.take(g + 1).drop_last() =~= gs.take(g as int));
        assert(gs.take(g + 1).last() == group_view(cdf.groups@[g as int]));
        if cdf.groups[g].decisions.len() > 0 {
            let ghost before = decision_refs_view(r@);
            let d = &cdf.groups[g].decisions[0];
            r.push(d);
            assert(decision_refs_view(r@) =~= before.push(decision_view(*d)));
        }
        g = g + 1;
    }
    assert(gs.take(cdf.groups@.len() as int) =~= gs);
    r
}

/// Whether a connectivity rank (components without a pressure anchor, then all
/// components) is strictly better, that is smaller.
pub fn connectivity_rank_strictly_better(candidate: (usize, usize), baseline: (usize, usize)) -> (r: bool)
    ensures
        r == (candidate.0 < baseline.0 || (candidate.0 == baseline.0 && candidate.1 < baseline.1)),
{
    candidate.0 < baseline.0 || (candidate.0 == baseline.0 && candidate.1 < baseline.1)
}

/// Whether a connectivity rank is strictly worse than the baseline.
pub fn connectivity_rank_worse(candidate: (usize, usize), baseline: (usize, usize)) -> (r: bool)
    ensures
        r == (baseline.0 < candidate.0 || (baseline.0 == candidate.0 && baseline.1 < candidate.1)),
{
    connectivity_rank_strictly_better(baseline, candidate)
}

} // verus!
