//! Pressure anchors of a transport scenario: the nodes whose pressure is held so that the
//! balance of a network with zero-flow boundaries closes.

use vstd::prelude::*;

use crate::boundary::{has_prefix, has_prefix_exec};
use crate::connectivity::NetworkArc;
use crate::diff::{entries_view, ids_view, to_map, Keyed};
use crate::junctions::{
    active_neighbours, compressor_endpoint, count_mixed_zero_flow_neighbors, hydraulic_degree,
    is_compressor_endpoint, listed, min_junction_degree, node_hydraulic_degree,
    spec_min_junction_degree, with_prefix, zero_flow_boundary_kind_sets,
};
use crate::ranking::{lemma_top_hints, ranked_view, ranked_views, top_hints, top_ranked, Ranked, RankedView};
use crate::text::str_eq;

verus! {

/// A node whose pressure is held, and the pressure (of type `P`) it is held at.
pub struct PressureSlackHint<P> {
    pub node_id: String,
    pub pressure_bar: P,
}

pub type HintView<P> = (Seq<char>, P);

pub open spec fn hint_view<P>(h: PressureSlackHint<P>) -> HintView<P> {
    (h.node_id@, h.pressure_bar)
}

pub open spec fn hints_view<P>(v: Seq<PressureSlackHint<P>>) -> Seq<HintView<P>> {
    v.map_values(|h: PressureSlackHint<P>| hint_view(h))
}

/// An entry or exit whose nominated flow is zero, with the lower pressure bound the
/// scenario gives it, if any.
pub struct ZeroFlowBoundaryAnchor<P> {
    pub node_id: String,
    pub scenario_pressure_bar: Option<P>,
}

pub type ZeroFlowView<P> = (Seq<char>, Option<P>);

pub open spec fn zero_flow_view<P>(z: ZeroFlowBoundaryAnchor<P>) -> ZeroFlowView<P> {
    (z.node_id@, z.scenario_pressure_bar)
}

/// A node of the network as the anchor choice sees it.
pub struct AnchorNode<P> {
    pub id: String,
    /// The node has an imposed pressure.
    pub fixed_pressure: bool,
    /// The scenario gives the node a demand that is not negligible.
    pub carries_demand: bool,
    /// The lower pressure bound of the node, if any.
    pub lower_bar: Option<P>,
}

pub type AnchorNodeView<P> = (Seq<char>, bool, bool, Option<P>);

pub open spec fn node_view<P>(n: AnchorNode<P>) -> AnchorNodeView<P> {
    (n.id@, n.fixed_pressure, n.carries_demand, n.lower_bar)
}

pub open spec fn nodes_view<P>(v: Seq<AnchorNode<P>>) -> Seq<AnchorNodeView<P>> {
    v.map_values(|n: AnchorNode<P>| node_view(n))
}

/// The pressure anchors of a scenario and the boundaries they are chosen among.
pub struct ScenarioAnchors<P> {
    /// Implicit pressure slack (a main exit with only a lower bound).
    pub pressure_slack: Option<PressureSlackHint<P>>,
    /// Most connected zero-flow boundaries.
    pub balance_hubs: Vec<PressureSlackHint<P>>,
    /// Internal junctions strongly coupled to zero-flow boundaries.
    pub junction_anchors: Vec<PressureSlackHint<P>>,
    /// Highly connected zero-flow boundaries, besides the balance hubs.
    pub boundary_spine_anchors: Vec<PressureSlackHint<P>>,
    /// Anchors added from the mass balance after a solve.
    pub mass_balance_anchors: Vec<PressureSlackHint<P>>,
    /// Entries and exits whose nominated flow is zero.
    pub zero_flow_boundary_anchors: Vec<ZeroFlowBoundaryAnchor<P>>,
    /// Entries and exits whose nominated flow is dropped before the solve.
    pub contract_flow_relaxed: Vec<String>,
    /// Pressures held where a nominated flow was dropped.
    pub contract_pressure_anchors: Vec<PressureSlackHint<P>>,
}

/// The anchors of a scenario as sequences of plain values.
pub struct AnchorsView<P> {
    pub slack: Option<HintView<P>>,
    pub hubs: Seq<HintView<P>>,
    pub junctions: Seq<HintView<P>>,
    pub spines: Seq<HintView<P>>,
    pub mass: Seq<HintView<P>>,
    pub zero_flow: Seq<ZeroFlowView<P>>,
    pub relaxed: Seq<Seq<char>>,
    pub contract: Seq<HintView<P>>,
}

pub open spec fn anchors_view<P>(a: ScenarioAnchors<P>) -> AnchorsView<P> {
    AnchorsView {
        slack: match a.pressure_slack {
            Some(h) => Some(hint_view(h)),
            None => None,
        },
        hubs: hints_view(a.balance_hubs@),
        junctions: hints_view(a.junction_anchors@),
        spines: hints_view(a.boundary_spine_anchors@),
        mass: hints_view(a.mass_balance_anchors@),
        zero_flow: a.zero_flow_boundary_anchors@.map_values(|z: ZeroFlowBoundaryAnchor<P>| zero_flow_view(z)),
        relaxed: ids_view(a.contract_flow_relaxed@),
        contract: hints_view(a.contract_pressure_anchors@),
    }
}

pub open spec fn hint_ids<P>(s: Seq<HintView<P>>) -> Seq<Seq<char>> {
    s.map_values(|h: HintView<P>| h.0)
}

/// Node `x` already holds an anchor: the slack, a hub, a spine, a junction, a mass-balance
/// or a contract anchor.
pub open spec fn reserved<P>(a: AnchorsView<P>, x: Seq<char>) -> bool {
    ||| a.slack matches Some(h) && h.0 == x
    ||| hint_ids(a.hubs).contains(x)
    ||| hint_ids(a.spines).contains(x)
    ||| hint_ids(a.junctions).contains(x)
    ||| hint_ids(a.mass).contains(x)
    ||| hint_ids(a.contract).contains(x)
}

fn push_ids<P>(out: &mut Vec<String>, hints: &Vec<PressureSlackHint<P>>)
    ensures
        ids_view(final(out)@) == ids_view(old(out)@) + hint_ids(hints_view(hints@)),
{
    let ghost start = ids_view(out@);
    let mut i: usize = 0;
    while i < hints.len()
        invariant
            i <= hints@.len(),
            ids_view(out@) == start + hint_ids(hints_view(hints@)).take(i as int),
        decreases hints@.len() - i,
    {
        let ghost before = ids_view(out@);
        out.push(hints[i].node_id.clone());
        assert(ids_view(out@) =~= before.push(hints@[i as int].node_id@));
        assert(hint_ids(hints_view(hints@)).take(i + 1) =~= hint_ids(hints_view(hints@)).take(i as int).push(
            hints@[i as int].node_id@,
        ));
        i = i + 1;
    }
    assert(hint_ids(hints_view(hints@)).take(hints@.len() as int) =~= hint_ids(hints_view(hints@)));
}

/// The nodes that already hold an anchor (see `reserved`).
pub fn all_applied_anchor_ids<P>(a: &ScenarioAnchors<P>) -> (r: Vec<String>)
    ensures
        forall|x: Seq<char>| #[trigger] ids_view(r@).contains(x) <==> reserved(anchors_view(*a), x),
{
    let mut out: Vec<String> = Vec::new();
    match &a.pressure_slack {
        Some(h) => out.push(h.node_id.clone()),
        None => {},
    }
    let ghost s = ids_view(out@);
    push_ids(&mut out, &a.balance_hubs);
    push_ids(&mut out, &a.boundary_spine_anchors);
    push_ids(&mut out, &a.junction_anchors);
    push_ids(&mut out, &a.mass_balance_anchors);
    push_ids(&mut out, &a.contract_pressure_anchors);
    proof {
        let av = anchors_view(*a);
        let r = ids_view(out@);
        assert(r =~= s + hint_ids(av.hubs) + hint_ids(av.spines) + hint_ids(av.junctions) + hint_ids(av.mass)
            + hint_ids(av.contract));
        assert forall|x: Seq<char>| #[trigger] r.contains(x) <==> reserved(av, x) by {
            lemma_concat_contains(s, hint_ids(av.hubs), x);
            lemma_concat_contains(s + hint_ids(av.hubs), hint_ids(av.spines), x);
            lemma_concat_contains(s + hint_ids(av.hubs) + hint_ids(av.spines), hint_ids(av.junctions), x);
            lemma_concat_contains(s + hint_ids(av.hubs) + hint_ids(av.spines) + hint_ids(av.junctions), hint_ids(av.mass), x);
            lemma_concat_contains(
                s + hint_ids(av.hubs) + hint_ids(av.spines) + hint_ids(av.junctions) + hint_ids(av.mass),
                hint_ids(av.contract),
                x,
            );
            if s.contains(x) {
                assert(s.len() == 1 && s[0] == x);
            }
            if a.pressure_slack.is_some() && (av.slack->0).0 == x {
                assert(s[0] == x);
            }
        }
    }
    out
}

pub proof fn lemma_concat_contains<A>(s: Seq<A>, t: Seq<A>, x: A)
    ensures
        (s + t).contains(x) <==> s.contains(x) || t.contains(x),
{
    if (s + t).contains(x) {
        let i = choose|i: int| 0 <= i < (s + t).len() && (s + t)[i] == x;
        if i >= s.len() {
            assert(t[i - s.len()] == x);
        }
    }
    if t.contains(x) {
        let i = choose|i: int| 0 <= i < t.len() && t[i] == x;
        assert((s + t)[s.len() + i] == x);
    }
    if s.contains(x) {
        let i = choose|i: int| 0 <= i < s.len() && s[i] == x;
        assert((s + t)[i] == x);
    }
}

/// The lower pressure bound of the first node named `x`.
pub open spec fn node_lower_bar<P>(nodes: Seq<AnchorNodeView<P>>, x: Seq<char>) -> Option<P>
    decreases nodes.len(),
{
    if nodes.len() == 0 {
        None
    } else if nodes[0].0 == x {
        nodes[0].3
    } else {
        node_lower_bar(nodes.drop_first(), x)
    }
}

/// The pressure an anchor at `x` is held at: the scenario's lower bound, else the node's.
pub open spec fn anchor_pressure<P>(nodes: Seq<AnchorNodeView<P>>, x: Seq<char>, scenario_lower: Option<P>) -> Option<P> {
    match scenario_lower {
        Some(p) => Some(p),
        None => node_lower_bar(nodes, x),
    }
}

fn lower_bar_of<P: Copy>(nodes: &Vec<AnchorNode<P>>, node_id: &str) -> (r: Option<P>)
    ensures
        r == node_lower_bar(nodes_view(nodes@), node_id@),
{
    let ghost nv = nodes_view(nodes@);
    let mut i: usize = 0;
    assert(nv.skip(0) =~= nv);
    while i < nodes.len()
        invariant
            nv == nodes_view(nodes@),
            i <= nodes@.len(),
            node_lower_bar(nv, node_id@) == node_lower_bar(nv.skip(i as int), node_id@),
        decreases nodes@.len() - i,
    {
        assert(nv.skip(i as int)[0] == node_view(nodes@[i as int]));
        assert(nv.skip(i as int).drop_first() =~= nv.skip(i + 1));
        if str_eq(nodes[i].id.as_str(), node_id) {
            return nodes[i].lower_bar;
        }
        i = i + 1;
    }
    None
}

/// The pressure an anchor at `node_id` is held at: the scenario's lower bound if it gives
/// one, else the lower bound of the first node of that name.
pub fn resolve_anchor_pressure_bar<P: Copy>(nodes: &Vec<AnchorNode<P>>, node_id: &str, scenario_lower: Option<P>) -> (r: Option<P>)
    ensures
        r == anchor_pressure(nodes_view(nodes@), node_id@, scenario_lower),
{
    match scenario_lower {
        Some(p) => Some(p),
        None => lower_bar_of(nodes, node_id),
    }
}

/// The values `f` keeps, in order.
pub open spec fn filter_map<A, B>(s: Seq<A>, f: spec_fn(A) -> Option<B>) -> Seq<B>
    decreases s.len(),
{
    if s.len() == 0 {
        Seq::empty()
    } else {
        let r = filter_map(s.drop_last(), f);
        match f(s.last()) {
            Some(b) => r.push(b),
            None => r,
        }
    }
}

pub proof fn lemma_filter_map_step<A, B>(s: Seq<A>, f: spec_fn(A) -> Option<B>, i: int)
    requires
        0 <= i < s.len(),
    ensures
        filter_map(s.take(i + 1), f) == match f(s[i]) {
            Some(b) => filter_map(s.take(i), f).push(b),
            None => filter_map(s.take(i), f),
        },
{
    assert(s.take(i + 1).drop_last() =~= s.take(i));
    assert(s.take(i + 1).last() == s[i]);
}

/// A balance-hub candidate: a zero-flow boundary other than the slack, with an active arc
/// and a pressure to hold; ranked by its number of active arcs.
pub open spec fn hub_candidate<P>(
    arcs: Seq<NetworkArc>,
    nodes: Seq<AnchorNodeView<P>>,
    a: AnchorsView<P>,
    z: ZeroFlowView<P>,
) -> Option<RankedView<P>> {
    let degree = hydraulic_degree(arcs, z.0);
    if a.slack matches Some(h) && h.0 == z.0 {
        None
    } else if degree == 0 {
        None
    } else {
        match anchor_pressure(nodes, z.0, z.1) {
            None => None,
            Some(p) => Some(((false, degree as usize, 0usize), z.0, p)),
        }
    }
}

pub open spec fn hub_candidates<P>(arcs: Seq<NetworkArc>, nodes: Seq<AnchorNodeView<P>>, a: AnchorsView<P>) -> Seq<RankedView<P>> {
    filter_map(a.zero_flow, |z: ZeroFlowView<P>| hub_candidate(arcs, nodes, a, z))
}

/// The balance hubs: the `max_hubs` (at least one) most connected zero-flow boundaries
/// other than the slack that have a pressure to hold, ties by identifier.
pub fn detect_balance_hubs_for_network<P: Copy>(
    arcs: &Vec<NetworkArc>,
    nodes: &Vec<AnchorNode<P>>,
    a: &ScenarioAnchors<P>,
    max_hubs: usize,
) -> (r: Vec<PressureSlackHint<P>>)
    ensures
        hints_view(r@) == top_hints(
            hub_candidates(arcs@, nodes_view(nodes@), anchors_view(*a)),
            if max_hubs > 1 { max_hubs as int } else { 1 },
        ),
{
    let ghost av = anchors_view(*a);
    let ghost f = |z: ZeroFlowView<P>| hub_candidate(arcs@, nodes_view(nodes@), av, z);
    let mut cands: Vec<Ranked<P>> = Vec::new();
    let mut i: usize = 0;
    while i < a.zero_flow_boundary_anchors.len()
        invariant
            av == anchors_view(*a),
            f == (|z: ZeroFlowView<P>| hub_candidate(arcs@, nodes_view(nodes@), av, z)),
            i <= av.zero_flow.len(),
            ranked_views(cands@) == filter_map(av.zero_flow.take(i as int), f),
        decreases av.zero_flow.len() - i,
    {
        let z = &a.zero_flow_boundary_anchors[i];
        proof {
            lemma_filter_map_step(av.zero_flow, f, i as int);
            assert(av.zero_flow[i as int] == zero_flow_view(*z));
        }
        let is_slack = match &a.pressure_slack {
            Some(h) => str_eq(h.node_id.as_str(), z.node_id.as_str()),
            None => false,
        };
        if !is_slack {
            let degree = node_hydraulic_degree(arcs, z.node_id.as_str());
            if degree != 0 {
                match resolve_anchor_pressure_bar(nodes, z.node_id.as_str(), z.scenario_pressure_bar) {
                    Some(p) => {
                        let ghost before = ranked_views(cands@);
                        let c = Ranked {
                            key: (false, degree, 0),
                            hint: PressureSlackHint { node_id: z.node_id.clone(), pressure_bar: p },
                        };
                        cands.push(c);
                        assert(ranked_views(cands@) =~= before.push(ranked_view(c)));
                    },
                    None => {},
                }
            }
        }
        i = i + 1;
    }
    assert(av.zero_flow.take(av.zero_flow.len() as int) =~= av.zero_flow);
    let n = if max_hubs > 1 { max_hubs } else { 1 };
    let r = top_ranked(&cands, n);
    assert(r@.map_values(|h: PressureSlackHint<P>| hint_view(h)) =~= hints_view(r@));
    r
}

/// The identifiers of the zero-flow boundaries.
pub open spec fn zero_flow_ids<P>(a: AnchorsView<P>) -> Seq<Seq<char>> {
    a.zero_flow.map_values(|z: ZeroFlowView<P>| z.0)
}

/// The zero-flow entries (`source_*`) among the boundaries.
pub open spec fn zero_flow_entries<P>(a: AnchorsView<P>) -> Set<Seq<char>> {
    with_prefix(zero_flow_ids(a), "source_"@)
}

/// The zero-flow exits (`sink_*`) among the boundaries.
pub open spec fn zero_flow_exits<P>(a: AnchorsView<P>) -> Set<Seq<char>> {
    with_prefix(zero_flow_ids(a), "sink_"@)
}

/// Number of distinct active neighbours of `x` that are zero-flow entries.
pub open spec fn entry_neighbour_count<P>(arcs: Seq<NetworkArc>, a: AnchorsView<P>, x: Seq<char>) -> nat {
    active_neighbours(arcs, x).filter(|y: Seq<char>| zero_flow_entries(a).contains(y)).len()
}

/// Number of distinct active neighbours of `x` that are zero-flow exits.
pub open spec fn exit_neighbour_count<P>(arcs: Seq<NetworkArc>, a: AnchorsView<P>, x: Seq<char>) -> nat {
    active_neighbours(arcs, x).filter(|y: Seq<char>| zero_flow_exits(a).contains(y)).len()
}

fn zero_flow_kind_lists<P>(a: &ScenarioAnchors<P>) -> (r: (Vec<String>, Vec<String>))
    ensures
        ids_view(r.0@).to_set() == zero_flow_entries(anchors_view(*a)),
        ids_view(r.1@).to_set() == zero_flow_exits(anchors_view(*a)),
{
    let ghost av = anchors_view(*a);
    let mut ids: Vec<String> = Vec::new();
    let mut i: usize = 0;
    while i < a.zero_flow_boundary_anchors.len()
        invariant
            av == anchors_view(*a),
            i <= av.zero_flow.len(),
            ids_view(ids@) == zero_flow_ids(av).take(i as int),
        decreases av.zero_flow.len() - i,
    {
        let ghost before = ids_view(ids@);
        ids.push(a.zero_flow_boundary_anchors[i].node_id.clone());
        assert(ids_view(ids@) =~= before.push(zero_flow_ids(av)[i as int]));
        assert(zero_flow_ids(av).take(i + 1) =~= zero_flow_ids(av).take(i as int).push(zero_flow_ids(av)[i as int]));
        i = i + 1;
    }
    assert(zero_flow_ids(av).take(av.zero_flow.len() as int) =~= zero_flow_ids(av));
    zero_flow_boundary_kind_sets(&ids)
}

/// The zero-flow entries and exits of node `node_id`'s neighbourhood, as counted by
/// `count_mixed_zero_flow_neighbors` on the boundary lists.
fn boundary_neighbour_counts<P>(
    arcs: &Vec<NetworkArc>,
    node_id: &String,
    entries: &Vec<String>,
    exits: &Vec<String>,
    Ghost(av): Ghost<AnchorsView<P>>,
) -> (r: (usize, usize, bool))
    requires
        ids_view(entries@).to_set() == zero_flow_entries(av),
        ids_view(exits@).to_set() == zero_flow_exits(av),
    ensures
        r.0 == entry_neighbour_count(arcs@, av, node_id@),
        r.1 == exit_neighbour_count(arcs@, av, node_id@),
        r.2 == (r.0 > 0 && r.1 > 0),
        r.0 + r.1 <= arcs@.len(),
        r.0 + r.1 <= usize::MAX,
{
    let _n_arcs = arcs.len();
    proof {
        reveal_strlit("source_");
        reveal_strlit("sink_");
        assert forall|y: Seq<char>| !(ids_view(entries@).contains(y) && ids_view(exits@).contains(y)) by {
            if ids_view(entries@).contains(y) && ids_view(exits@).contains(y) {
                assert(ids_view(entries@).to_set().contains(y));
                assert(ids_view(exits@).to_set().contains(y));
                assert(has_prefix(y, "source_"@));
                assert(has_prefix(y, "sink_"@));
                assert(y[1] == y.take(7)[1]);
                assert(y[1] == y.take(5)[1]);
            }
        }
    }
    let r = count_mixed_zero_flow_neighbors(arcs, node_id, entries, exits);
    proof {
        let n = active_neighbours(arcs@, node_id@);
        assert(n.filter(|y: Seq<char>| ids_view(entries@).contains(y)) =~= n.filter(
            |y: Seq<char>| zero_flow_entries(av).contains(y),
        )) by {
            assert forall|y: Seq<char>| ids_view(entries@).contains(y) <==> zero_flow_entries(av).contains(y) by {
                assert(ids_view(entries@).to_set().contains(y) == ids_view(entries@).contains(y));
            }
        }
        assert(n.filter(|y: Seq<char>| ids_view(exits@).contains(y)) =~= n.filter(
            |y: Seq<char>| zero_flow_exits(av).contains(y),
        )) by {
            assert forall|y: Seq<char>| ids_view(exits@).contains(y) <==> zero_flow_exits(av).contains(y) by {
                assert(ids_view(exits@).to_set().contains(y) == ids_view(exits@).contains(y));
            }
        }
    }
    r
}

/// A boundary-spine candidate: a zero-flow entry or exit with no anchor yet, at least four
/// active arcs, at least two zero-flow boundary neighbours and a pressure to hold; ranked by
/// whether it touches both kinds, then by those neighbours, then by its arcs.
pub open spec fn spine_candidate<P>(
    arcs: Seq<NetworkArc>,
    nodes: Seq<AnchorNodeView<P>>,
    a: AnchorsView<P>,
    z: ZeroFlowView<P>,
) -> Option<RankedView<P>> {
    let degree = hydraulic_degree(arcs, z.0);
    let e = entry_neighbour_count(arcs, a, z.0);
    let x = exit_neighbour_count(arcs, a, z.0);
    if reserved(a, z.0) {
        None
    } else if !has_prefix(z.0, "source_"@) && !has_prefix(z.0, "sink_"@) {
        None
    } else if degree < 4 {
        None
    } else if e + x < 2 {
        None
    } else {
        match anchor_pressure(nodes, z.0, z.1) {
            None => None,
            Some(p) => Some(((e > 0 && x > 0, (e + x) as usize, degree as usize), z.0, p)),
        }
    }
}

pub open spec fn spine_candidates<P>(arcs: Seq<NetworkArc>, nodes: Seq<AnchorNodeView<P>>, a: AnchorsView<P>) -> Seq<RankedView<P>> {
    filter_map(a.zero_flow, |z: ZeroFlowView<P>| spine_candidate(arcs, nodes, a, z))
}

/// The boundary-spine anchors: the first `max_anchors` spine candidates in rank order.
pub fn detect_boundary_spine_anchors<P: Copy>(
    arcs: &Vec<NetworkArc>,
    nodes: &Vec<AnchorNode<P>>,
    a: &ScenarioAnchors<P>,
    max_anchors: usize,
) -> (r: Vec<PressureSlackHint<P>>)
    ensures
        hints_view(r@) == top_hints(spine_candidates(arcs@, nodes_view(nodes@), anchors_view(*a)), max_anchors as int),
{
    let ghost av = anchors_view(*a);
    let ghost f = |z: ZeroFlowView<P>| spine_candidate(arcs@, nodes_view(nodes@), av, z);
    let (entries, exits) = zero_flow_kind_lists(a);
    let reserved_ids = all_applied_anchor_ids(a);
    let mut cands: Vec<Ranked<P>> = Vec::new();
    let mut i: usize = 0;
    while i < a.zero_flow_boundary_anchors.len()
        invariant
            av == anchors_view(*a),
            f == (|z: ZeroFlowView<P>| spine_candidate(arcs@, nodes_view(nodes@), av, z)),
            ids_view(entries@).to_set() == zero_flow_entries(av),
            ids_view(exits@).to_set() == zero_flow_exits(av),
            forall|x: Seq<char>| #[trigger] ids_view(reserved_ids@).contains(x) <==> reserved(av, x),
            i <= av.zero_flow.len(),
            ranked_views(cands@) == filter_map(av.zero_flow.take(i as int), f),
        decreases av.zero_flow.len() - i,
    {
        let z = &a.zero_flow_boundary_anchors[i];
        proof {
            lemma_filter_map_step(av.zero_flow, f, i as int);
            assert(av.zero_flow[i as int] == zero_flow_view(*z));
        }
        if !listed(&reserved_ids, &z.node_id) && (has_prefix_exec(&z.node_id, "source_") || has_prefix_exec(
            &z.node_id,
            "sink_",
        )) {
            let degree = node_hydraulic_degree(arcs, z.node_id.as_str());
            if degree >= 4 {
                let (e, x, mixed) = boundary_neighbour_counts::<P>(arcs, &z.node_id, &entries, &exits, Ghost(av));
                if e + x >= 2 {
                    match resolve_anchor_pressure_bar(nodes, z.node_id.as_str(), z.scenario_pressure_bar) {
                        Some(p) => {
                            let ghost before = ranked_views(cands@);
                            let c = Ranked {
                                key: (mixed, e + x, degree),
                                hint: PressureSlackHint { node_id: z.node_id.clone(), pressure_bar: p },
                            };
                            cands.push(c);
                            assert(ranked_views(cands@) =~= before.push(ranked_view(c)));
                        },
                        None => {},
                    }
                }
            }
        }
        i = i + 1;
    }
    assert(av.zero_flow.take(av.zero_flow.len() as int) =~= av.zero_flow);
    let r = top_ranked(&cands, max_anchors);
    assert(r@.map_values(|h: PressureSlackHint<P>| hint_view(h)) =~= hints_view(r@));
    r
}

/// A node that may hold a junction anchor: an internal node (`innode_*`) that no active
/// compressor ends at, with no imposed pressure, no anchor yet and no demand.
pub open spec fn free_junction<P>(arcs: Seq<NetworkArc>, a: AnchorsView<P>, n: AnchorNodeView<P>) -> bool {
    &&& has_prefix(n.0, "innode_"@)
    &&& !compressor_endpoint(arcs, n.0)
    &&& !n.1
    &&& !reserved(a, n.0)
    &&& !n.2
}

/// A junction-anchor candidate: a free junction with at least two zero-flow boundary
/// neighbours, enough active arcs (see `spec_min_junction_degree`) and a lower pressure
/// bound; ranked as the spine candidates.
pub open spec fn junction_candidate<P>(arcs: Seq<NetworkArc>, a: AnchorsView<P>, n: AnchorNodeView<P>) -> Option<RankedView<P>> {
    let degree = hydraulic_degree(arcs, n.0);
    let e = entry_neighbour_count(arcs, a, n.0);
    let x = exit_neighbour_count(arcs, a, n.0);
    let mixed = e > 0 && x > 0;
    if !free_junction(arcs, a, n) {
        None
    } else if e + x < 2 {
        None
    } else if degree < spec_min_junction_degree(e as usize, x as usize, mixed) {
        None
    } else {
        match n.3 {
            None => None,
            Some(p) => Some(((mixed, (e + x) as usize, degree as usize), n.0, p)),
        }
    }
}

pub open spec fn junction_candidates<P>(arcs: Seq<NetworkArc>, nodes: Seq<AnchorNodeView<P>>, a: AnchorsView<P>) -> Seq<RankedView<P>> {
    filter_map(nodes, |n: AnchorNodeView<P>| junction_candidate(arcs, a, n))
}

/// An exit-hub candidate: a free junction next to no zero-flow entry and at least two
/// zero-flow exits, with enough active arcs and a lower pressure bound; ranked by those
/// exits, then by its arcs.
pub open spec fn exit_hub_candidate<P>(arcs: Seq<NetworkArc>, a: AnchorsView<P>, n: AnchorNodeView<P>) -> Option<RankedView<P>> {
    let degree = hydraulic_degree(arcs, n.0);
    let e = entry_neighbour_count(arcs, a, n.0);
    let x = exit_neighbour_count(arcs, a, n.0);
    if !free_junction(arcs, a, n) {
        None
    } else if e != 0 || x < 2 {
        None
    } else if degree < spec_min_junction_degree(0, x as usize, false) {
        None
    } else {
        match n.3 {
            None => None,
            Some(p) => Some(((false, x as usize, degree as usize), n.0, p)),
        }
    }
}

pub open spec fn exit_hub_candidates<P>(arcs: Seq<NetworkArc>, nodes: Seq<AnchorNodeView<P>>, a: AnchorsView<P>) -> Seq<RankedView<P>> {
    filter_map(nodes, |n: AnchorNodeView<P>| exit_hub_candidate(arcs, a, n))
}

fn is_free_junction<P>(arcs: &Vec<NetworkArc>, reserved_ids: &Vec<String>, n: &AnchorNode<P>, Ghost(av): Ghost<AnchorsView<P>>) -> (r: bool)
    requires
        forall|x: Seq<char>| #[trigger] ids_view(reserved_ids@).contains(x) <==> reserved(av, x),
    ensures
        r == free_junction(arcs@, av, node_view(*n)),
{
    has_prefix_exec(&n.id, "innode_") && !is_compressor_endpoint(arcs, n.id.as_str()) && !n.fixed_pressure
        && !listed(reserved_ids, &n.id) && !n.carries_demand
}

/// The junction anchors: the first `max_anchors` junction candidates in rank order.
pub fn detect_junction_balance_anchors<P: Copy>(
    arcs: &Vec<NetworkArc>,
    nodes: &Vec<AnchorNode<P>>,
    a: &ScenarioAnchors<P>,
    max_anchors: usize,
) -> (r: Vec<PressureSlackHint<P>>)
    ensures
        hints_view(r@) == top_hints(junction_candidates(arcs@, nodes_view(nodes@), anchors_view(*a)), max_anchors as int),
{
    let ghost av = anchors_view(*a);
    let ghost nv = nodes_view(nodes@);
    let ghost f = |n: AnchorNodeView<P>| junction_candidate(arcs@, av, n);
    let (entries, exits) = zero_flow_kind_lists(a);
    let reserved_ids = all_applied_anchor_ids(a);
    let mut cands: Vec<Ranked<P>> = Vec::new();
    let mut i: usize = 0;
    while i < nodes.len()
        invariant
            av == anchors_view(*a),
            nv == nodes_view(nodes@),
            f == (|n: AnchorNodeView<P>| junction_candidate(arcs@, av, n)),
            ids_view(entries@).to_set() == zero_flow_entries(av),
            ids_view(exits@).to_set() == zero_flow_exits(av),
            forall|x: Seq<char>| #[trigger] ids_view(reserved_ids@).contains(x) <==> reserved(av, x),
            i <= nv.len(),
            ranked_views(cands@) == filter_map(nv.take(i as int), f),
        decreases nv.len() - i,
    {
        let n = &nodes[i];
        proof {
            lemma_filter_map_step(nv, f, i as int);
            assert(nv[i as int] == node_view(*n));
        }
        if is_free_junction(arcs, &reserved_ids, n, Ghost(av)) {
            let degree = node_hydraulic_degree(arcs, n.id.as_str());
            let (e, x, mixed) = boundary_neighbour_counts::<P>(arcs, &n.id, &entries, &exits, Ghost(av));
            if e + x >= 2 && degree >= min_junction_degree(e, x, mixed) {
                match n.lower_bar {
                    Some(p) => {
                        let ghost before = ranked_views(cands@);
                        let c = Ranked {
                            key: (mixed, e + x, degree),
                            hint: PressureSlackHint { node_id: n.id.clone(), pressure_bar: p },
                        };
                        cands.push(c);
                        assert(ranked_views(cands@) =~= before.push(ranked_view(c)));
                    },
                    None => {},
                }
            }
        }
        i = i + 1;
    }
    assert(nv.take(nv.len() as int) =~= nv);
    let r = top_ranked(&cands, max_anchors);
    assert(r@.map_values(|h: PressureSlackHint<P>| hint_view(h)) =~= hints_view(r@));
    r
}

/// The best exit-only junction: the first exit-hub candidate in rank order, if any.
pub fn detect_exit_hub_junction_anchor<P: Copy>(
    arcs: &Vec<NetworkArc>,
    nodes: &Vec<AnchorNode<P>>,
    a: &ScenarioAnchors<P>,
) -> (r: Option<PressureSlackHint<P>>)
    ensures
        match r {
            Some(h) => top_hints(exit_hub_candidates(arcs@, nodes_view(nodes@), anchors_view(*a)), 1) == seq![hint_view(h)],
            None => top_hints(exit_hub_candidates(arcs@, nodes_view(nodes@), anchors_view(*a)), 1).len() == 0,
        },
{
    let ghost av = anchors_view(*a);
    let ghost nv = nodes_view(nodes@);
    let ghost f = |n: AnchorNodeView<P>| exit_hub_candidate(arcs@, av, n);
    let (entries, exits) = zero_flow_kind_lists(a);
    let reserved_ids = all_applied_anchor_ids(a);
    let mut cands: Vec<Ranked<P>> = Vec::new();
    let mut i: usize = 0;
    while i < nodes.len()
        invariant
            av == anchors_view(*a),
            nv == nodes_view(nodes@),
            f == (|n: AnchorNodeView<P>| exit_hub_candidate(arcs@, av, n)),
            ids_view(entries@).to_set() == zero_flow_entries(av),
            ids_view(exits@).to_set() == zero_flow_exits(av),
            forall|x: Seq<char>| #[trigger] ids_view(reserved_ids@).contains(x) <==> reserved(av, x),
            i <= nv.len(),
            ranked_views(cands@) == filter_map(nv.take(i as int), f),
        decreases nv.len() - i,
    {
        let n = &nodes[i];
        proof {
            lemma_filter_map_step(nv, f, i as int);
            assert(nv[i as int] == node_view(*n));
        }
        if is_free_junction(arcs, &reserved_ids, n, Ghost(av)) {
            let degree = node_hydraulic_degree(arcs, n.id.as_str());
            let (e, x, _mixed) = boundary_neighbour_counts::<P>(arcs, &n.id, &entries, &exits, Ghost(av));
            if e == 0 && x >= 2 && degree >= min_junction_degree(0, x, false) {
                match n.lower_bar {
                    Some(p) => {
                        let ghost before = ranked_views(cands@);
                        let c = Ranked {
                            key: (false, x, degree),
                            hint: PressureSlackHint { node_id: n.id.clone(), pressure_bar: p },
                        };
                        cands.push(c);
                        assert(ranked_views(cands@) =~= before.push(ranked_view(c)));
                    },
                    None => {},
                }
            }
        }
        i = i + 1;
    }
    assert(nv.take(nv.len() as int) =~= nv);
    let mut top = top_ranked(&cands, 1);
    if top.len() == 0 {
        return None;
    }
    let h = top.remove(0);
    assert(top_hints(ranked_views(cands@), 1) =~= seq![hint_view(h)]);
    Some(h)
}

/// The anchors after enrichment: the balance hubs (two), then the boundary spine (one),
/// then the junction anchors (two) are chosen, each choice seeing the anchors set before
/// it; the best exit hub is added to the junction anchors unless it is one already.
pub open spec fn enriched<P>(arcs: Seq<NetworkArc>, nodes: Seq<AnchorNodeView<P>>, a: AnchorsView<P>) -> AnchorsView<P> {
    let a1 = AnchorsView { hubs: top_hints(hub_candidates(arcs, nodes, a), 2), ..a };
    let a2 = AnchorsView { spines: top_hints(spine_candidates(arcs, nodes, a1), 1), ..a1 };
    let a3 = AnchorsView { junctions: top_hints(junction_candidates(arcs, nodes, a2), 2), ..a2 };
    let hub = top_hints(exit_hub_candidates(arcs, nodes, a3), 1);
    if hub.len() > 0 && !hint_ids(a3.junctions).contains(hub[0].0) {
        AnchorsView { junctions: a3.junctions.push(hub[0]), ..a3 }
    } else {
        a3
    }
}

fn holds_anchor<P>(v: &Vec<PressureSlackHint<P>>, id: &String) -> (r: bool)
    ensures
        r == hint_ids(hints_view(v@)).contains(id@),
{
    let ghost iv = hint_ids(hints_view(v@));
    let mut i: usize = 0;
    while i < v.len()
        invariant
            iv == hint_ids(hints_view(v@)),
            i <= v@.len(),
            forall|j: int| 0 <= j < i ==> iv[j] != id@,
        decreases v@.len() - i,
    {
        if str_eq(v[i].node_id.as_str(), id.as_str()) {
            assert(iv[i as int] == id@);
            return true;
        }
        i = i + 1;
    }
    false
}

/// Sets the pressure anchors found on the loaded network (see `enriched`); with
/// `minimal_anchors` (only the scenario's own anchors are wanted) nothing changes.
pub fn enrich_scenario_with_balance_hub<P: Copy>(
    arcs: &Vec<NetworkArc>,
    nodes: &Vec<AnchorNode<P>>,
    a: &mut ScenarioAnchors<P>,
    minimal_anchors: bool,
)
    ensures
        anchors_view(*final(a)) == if minimal_anchors {
            anchors_view(*old(a))
        } else {
            enriched(arcs@, nodes_view(nodes@), anchors_view(*old(a)))
        },
{
    if minimal_anchors {
        return;
    }
    let hubs = detect_balance_hubs_for_network(arcs, nodes, a, 2);
    a.balance_hubs = hubs;
    let spines = detect_boundary_spine_anchors(arcs, nodes, a, 1);
    a.boundary_spine_anchors = spines;
    let junctions = detect_junction_balance_anchors(arcs, nodes, a, 2);
    a.junction_anchors = junctions;
    match detect_exit_hub_junction_anchor(arcs, nodes, a) {
        Some(h) => {
            if !holds_anchor(&a.junction_anchors, &h.node_id) {
                let ghost before = hints_view(a.junction_anchors@);
                a.junction_anchors.push(h);
                assert(hints_view(a.junction_anchors@) =~= before.push(hint_view(h)));
            }
        },
        None => {},
    }
}

/// A node of the mass balance after a solve, worst first: whether its imbalance is large
/// enough to act on, and the pressure solved there when it is a usable one.
pub struct BalanceCandidate<P> {
    pub node_id: String,
    pub significant: bool,
    pub solved_pressure: Option<P>,
}

pub type BalanceView<P> = (Seq<char>, bool, Option<P>);

pub open spec fn balance_view<P>(c: BalanceCandidate<P>) -> BalanceView<P> {
    (c.node_id@, c.significant, c.solved_pressure)
}

pub open spec fn balance_views<P>(v: Seq<BalanceCandidate<P>>) -> Seq<BalanceView<P>> {
    v.map_values(|c: BalanceCandidate<P>| balance_view(c))
}

/// The anchor that the first eligible candidate gives: a significant imbalance at a free
/// internal node (`innode_*`, no anchor yet, no active compressor ending there) with a
/// pressure to hold (the solved one, else the node's lower bound).
pub open spec fn first_mass_anchor<P>(
    arcs: Seq<NetworkArc>,
    nodes: Seq<AnchorNodeView<P>>,
    a: AnchorsView<P>,
    cs: Seq<BalanceView<P>>,
) -> Option<HintView<P>>
    decreases cs.len(),
{
    if cs.len() == 0 {
        None
    } else {
        let c = cs[0];
        if c.1 && has_prefix(c.0, "innode_"@) && !reserved(a, c.0) && !compressor_endpoint(arcs, c.0)
            && anchor_pressure(nodes, c.0, c.2) is Some {
            Some((c.0, anchor_pressure(nodes, c.0, c.2)->0))
        } else {
            first_mass_anchor(arcs, nodes, a, cs.drop_first())
        }
    }
}

/// Adds a pressure anchor at the first eligible node of the mass balance (see
/// `first_mass_anchor`); says whether one was added.
pub fn try_add_mass_balance_anchor<P: Copy>(
    arcs: &Vec<NetworkArc>,
    nodes: &Vec<AnchorNode<P>>,
    a: &mut ScenarioAnchors<P>,
    top_imbalances: &Vec<BalanceCandidate<P>>,
) -> (r: bool)
    ensures
        r == first_mass_anchor(arcs@, nodes_view(nodes@), anchors_view(*old(a)), balance_views(top_imbalances@)) is Some,
        anchors_view(*final(a)) == match first_mass_anchor(
            arcs@,
            nodes_view(nodes@),
            anchors_view(*old(a)),
            balance_views(top_imbalances@),
        ) {
            Some(h) => (AnchorsView { mass: anchors_view(*old(a)).mass.push(h), ..anchors_view(*old(a)) }),
            None => anchors_view(*old(a)),
        },
{
    let ghost av = anchors_view(*a);
    let ghost cs = balance_views(top_imbalances@);
    let reserved_ids = all_applied_anchor_ids(a);
    let mut i: usize = 0;
    assert(cs.skip(0) =~= cs);
    while i < top_imbalances.len()
        invariant
            av == anchors_view(*a),
            av == anchors_view(*old(a)),
            cs == balance_views(top_imbalances@),
            forall|x: Seq<char>| #[trigger] ids_view(reserved_ids@).contains(x) <==> reserved(av, x),
            i <= cs.len(),
            first_mass_anchor(arcs@, nodes_view(nodes@), av, cs) == first_mass_anchor(
                arcs@,
                nodes_view(nodes@),
                av,
                cs.skip(i as int),
            ),
        decreases cs.len() - i,
    {
        let c = &top_imbalances[i];
        assert(cs.skip(i as int)[0] == balance_view(*c));
        assert(cs.skip(i as int).drop_first() =~= cs.skip(i + 1));
        if c.significant && has_prefix_exec(&c.node_id, "innode_") && !listed(&reserved_ids, &c.node_id)
            && !is_compressor_endpoint(arcs, c.node_id.as_str()) {
            match resolve_anchor_pressure_bar(nodes, c.node_id.as_str(), c.solved_pressure) {
                Some(p) => {
                    let ghost before = hints_view(a.mass_balance_anchors@);
                    let h = PressureSlackHint { node_id: c.node_id.clone(), pressure_bar: p };
                    a.mass_balance_anchors.push(h);
                    assert(hints_view(a.mass_balance_anchors@) =~= before.push(hint_view(h)));
                    return true;
                },
                None => {},
            }
        }
        i = i + 1;
    }
    false
}

/// What relaxing contracts keeps as it goes: the relaxed boundaries, the contract
/// pressure anchors, and how many boundaries this pass relaxed.
pub type RelaxState<P> = (Seq<Seq<char>>, Seq<HintView<P>>, nat);

/// One candidate of the contract relaxation: at most three boundaries per pass; a
/// significant imbalance at an entry or exit other than the slack, not relaxed yet, has
/// its nominated flow dropped, and with `fix_pressure` its solved pressure held.
pub open spec fn relax_step<P>(a: AnchorsView<P>, fix_pressure: bool, st: RelaxState<P>, c: BalanceView<P>) -> RelaxState<P> {
    if st.2 >= 3 {
        st
    } else if !c.1 || (!has_prefix(c.0, "source_"@) && !has_prefix(c.0, "sink_"@)) {
        st
    } else if a.slack matches Some(h) && h.0 == c.0 {
        st
    } else if st.0.contains(c.0) {
        st
    } else {
        (
            st.0.push(c.0),
            if fix_pressure && c.2 is Some {
                st.1.push((c.0, c.2->0))
            } else {
                st.1
            },
            st.2 + 1,
        )
    }
}

pub open spec fn relax_all<P>(a: AnchorsView<P>, fix_pressure: bool, cs: Seq<BalanceView<P>>) -> RelaxState<P>
    decreases cs.len(),
{
    if cs.len() == 0 {
        (a.relaxed, a.contract, 0)
    } else {
        relax_step(a, fix_pressure, relax_all(a, fix_pressure, cs.drop_last()), cs.last())
    }
}

/// Drops the nominated flow of the worst-balanced entries and exits (see `relax_step`),
/// when the refinement is `enabled`; says whether any was dropped.
pub fn try_relax_contract_boundary<P: Copy>(
    a: &mut ScenarioAnchors<P>,
    top_imbalances: &Vec<BalanceCandidate<P>>,
    enabled: bool,
    fix_pressure: bool,
) -> (r: bool)
    ensures
        !enabled ==> !r && anchors_view(*final(a)) == anchors_view(*old(a)),
        enabled ==> {
            let st = relax_all(anchors_view(*old(a)), fix_pressure, balance_views(top_imbalances@));
            &&& r == (st.2 > 0)
            &&& anchors_view(*final(a)) == (AnchorsView { relaxed: st.0, contract: st.1, ..anchors_view(*old(a)) })
        },
{
    if !enabled {
        return false;
    }
    let ghost av = anchors_view(*a);
    let ghost cs = balance_views(top_imbalances@);
    let mut count: usize = 0;
    let mut i: usize = 0;
    while i < top_imbalances.len()
        invariant
            cs == balance_views(top_imbalances@),
            i <= cs.len(),
            count <= 3,
            anchors_view(*a) == (AnchorsView {
                relaxed: relax_all(av, fix_pressure, cs.take(i as int)).0,
                contract: relax_all(av, fix_pressure, cs.take(i as int)).1,
                ..av
            }),
            count == relax_all(av, fix_pressure, cs.take(i as int)).2,
        decreases cs.len() - i,
    {
        let c = &top_imbalances[i];
        proof {
            reveal_strlit("source_");
            reveal_strlit("sink_");
            assert(cs.take(i + 1).drop_last() =~= cs.take(i as int));
            assert(cs.take(i + 1).last() == balance_view(*c));
        }
        if count < 3 && c.significant && (has_prefix_exec(&c.node_id, "source_") || has_prefix_exec(
            &c.node_id,
            "sink_",
        )) {
            let is_slack = match &a.pressure_slack {
                Some(h) => str_eq(h.node_id.as_str(), c.node_id.as_str()),
                None => false,
            };
            if !is_slack && !listed(&a.contract_flow_relaxed, &c.node_id) {
                let ghost before_r = ids_view(a.contract_flow_relaxed@);
                a.contract_flow_relaxed.push(c.node_id.clone());
                assert(ids_view(a.contract_flow_relaxed@) =~= before_r.push(c.node_id@));
                if fix_pressure {
                    match c.solved_pressure {
                        Some(p) => {
                            let ghost before_c = hints_view(a.contract_pressure_anchors@);
                            let h = PressureSlackHint { node_id: c.node_id.clone(), pressure_bar: p };
                            a.contract_pressure_anchors.push(h);
                            assert(hints_view(a.contract_pressure_anchors@) =~= before_c.push(hint_view(h)));
                        },
                        None => {},
                    }
                }
                count = count + 1;
            }
        }
        i = i + 1;
    }
    assert(cs.take(cs.len() as int) =~= cs);
    count > 0
}

/// Every value `filter_map` keeps is what `f` gives for some element.
pub proof fn lemma_filter_map_member<A, B>(s: Seq<A>, f: spec_fn(A) -> Option<B>, k: int)
    requires
        0 <= k < filter_map(s, f).len(),
    ensures
        exists|i: int| 0 <= i < s.len() && f(s[i]) == Some(filter_map(s, f)[k]),
    decreases s.len(),
{
    let d = s.drop_last();
    let r = filter_map(d, f);
    if k < r.len() {
        lemma_filter_map_member(d, f, k);
        let i = choose|i: int| 0 <= i < d.len() && f(d[i]) == Some(filter_map(d, f)[k]);
        assert(s[i] == d[i]);
    } else {
        assert(f(s[s.len() - 1]) == Some(filter_map(s, f)[k]));
    }
}

/// Every anchor taken from candidates built by `f` over `s` is the anchor of a value `f`
/// keeps.
proof fn lemma_taken_from<A, P>(s: Seq<A>, f: spec_fn(A) -> Option<RankedView<P>>, n: int, k: int)
    requires
        n >= 0,
        0 <= k < top_hints(filter_map(s, f), n).len(),
    ensures
        exists|i: int| 0 <= i < s.len() && f(s[i]) is Some && ((#[trigger] f(s[i]))->0).1 == top_hints(filter_map(s, f), n)[k].0,
{
    let c = filter_map(s, f);
    lemma_top_hints(c, n);
    let j = choose|j: int| 0 <= j < c.len() && top_hints(c, n)[k] == (c[j].1, c[j].2);
    lemma_filter_map_member(s, f, j);
}

/// One enrichment never places two anchors on one node: no balance hub is the slack, no
/// spine anchor is a hub, and no junction anchor is a hub or a spine anchor.
pub proof fn lemma_enriched_anchors_apart<P>(arcs: Seq<NetworkArc>, nodes: Seq<AnchorNodeView<P>>, a: AnchorsView<P>)
    ensures
        forall|k: int| 0 <= k < enriched(arcs, nodes, a).hubs.len() ==> !(a.slack matches Some(h) && h.0 == #[trigger] enriched(arcs, nodes, a).hubs[k].0),
        forall|k: int| 0 <= k < enriched(arcs, nodes, a).spines.len() ==> !hint_ids(enriched(arcs, nodes, a).hubs).contains(#[trigger] enriched(arcs, nodes, a).spines[k].0),
        forall|k: int| 0 <= k < enriched(arcs, nodes, a).junctions.len() ==> !hint_ids(enriched(arcs, nodes, a).hubs).contains(#[trigger] enriched(arcs, nodes, a).junctions[k].0)
            && !hint_ids(enriched(arcs, nodes, a).spines).contains(enriched(arcs, nodes, a).junctions[k].0),
{
    let a1 = AnchorsView { hubs: top_hints(hub_candidates(arcs, nodes, a), 2), ..a };
    let a2 = AnchorsView { spines: top_hints(spine_candidates(arcs, nodes, a1), 1), ..a1 };
    let a3 = AnchorsView { junctions: top_hints(junction_candidates(arcs, nodes, a2), 2), ..a2 };
    let e = enriched(arcs, nodes, a);
    let fh = |z: ZeroFlowView<P>| hub_candidate(arcs, nodes, a, z);
    let fs = |z: ZeroFlowView<P>| spine_candidate(arcs, nodes, a1, z);
    let fj = |n: AnchorNodeView<P>| junction_candidate(arcs, a2, n);
    let fx = |n: AnchorNodeView<P>| exit_hub_candidate(arcs, a3, n);
    assert(e.hubs == a1.hubs && e.spines == a2.spines);
    assert forall|k: int| 0 <= k < e.hubs.len() implies !(a.slack matches Some(h) && h.0 == #[trigger] e.hubs[k].0) by {
        lemma_taken_from(a.zero_flow, fh, 2, k);
    }
    assert forall|k: int| 0 <= k < e.spines.len() implies !hint_ids(e.hubs).contains(#[trigger] e.spines[k].0) by {
        lemma_taken_from(a.zero_flow, fs, 1, k);
    }
    assert forall|k: int| 0 <= k < e.junctions.len() implies !hint_ids(e.hubs).contains(#[trigger] e.junctions[k].0)
        && !hint_ids(e.spines).contains(e.junctions[k].0) by {
        if k < a3.junctions.len() {
            assert(e.junctions[k] == a3.junctions[k]);
            lemma_taken_from(nodes, fj, 2, k);
        } else {
            let hub = top_hints(exit_hub_candidates(arcs, nodes, a3), 1);
            assert(e.junctions[k] == hub[0]);
            lemma_taken_from(nodes, fx, 1, 0);
        }
    }
}

/// A node as the boundary conditions see it: its identifier and its imposed pressure.
pub struct BoundaryNode<P> {
    pub id: String,
    pub pressure_fixed_bar: Option<P>,
}

pub type BoundaryNodeView<P> = (Seq<char>, Option<P>);

pub open spec fn boundary_nodes_view<P>(v: Seq<BoundaryNode<P>>) -> Seq<BoundaryNodeView<P>> {
    v.map_values(|n: BoundaryNode<P>| (n.id@, n.pressure_fixed_bar))
}

/// The position of the last node named `x` (the one a lookup by name finds).
pub open spec fn last_named<P>(ns: Seq<BoundaryNodeView<P>>, x: Seq<char>) -> Option<int>
    decreases ns.len(),
{
    if ns.len() == 0 {
        None
    } else if ns.last().0 == x {
        Some(ns.len() - 1)
    } else {
        last_named(ns.drop_last(), x)
    }
}

pub proof fn lemma_last_named<P>(ns: Seq<BoundaryNodeView<P>>, x: Seq<char>)
    ensures
        last_named(ns, x) matches Some(i) ==> 0 <= i < ns.len() && ns[i].0 == x,
    decreases ns.len(),
{
    if ns.len() > 0 && ns.last().0 != x {
        lemma_last_named(ns.drop_last(), x);
    }
}

/// The pressure at the node named `x` held at `p`, unless it is imposed already.
pub open spec fn hold_pressure<P>(ns: Seq<BoundaryNodeView<P>>, x: Seq<char>, p: P) -> Seq<BoundaryNodeView<P>> {
    match last_named(ns, x) {
        Some(i) => if ns[i].1 is None {
            ns.update(i, (x, Some(p)))
        } else {
            ns
        },
        None => ns,
    }
}

pub open spec fn hold_all<P>(ns: Seq<BoundaryNodeView<P>>, hs: Seq<HintView<P>>) -> Seq<BoundaryNodeView<P>>
    decreases hs.len(),
{
    if hs.len() == 0 {
        ns
    } else {
        let r = hold_all(ns, hs.drop_last());
        hold_pressure(r, hs.last().0, hs.last().1)
    }
}

/// The network after the scenario's boundary conditions: the slack's pressure when no
/// node has an imposed pressure, then the pressures of the hubs, spine, junction,
/// mass-balance and contract anchors where none is imposed yet.
pub open spec fn boundaries_applied<P>(ns: Seq<BoundaryNodeView<P>>, a: AnchorsView<P>) -> Seq<BoundaryNodeView<P>> {
    let ns0 = match a.slack {
        Some(h) => if forall|i: int| 0 <= i < ns.len() ==> (#[trigger] ns[i]).1 is None {
            hold_pressure(ns, h.0, h.1)
        } else {
            ns
        },
        None => ns,
    };
    hold_all(hold_all(hold_all(hold_all(hold_all(ns0, a.hubs), a.spines), a.junctions), a.mass), a.contract)
}

fn last_named_exec<P>(nodes: &Vec<BoundaryNode<P>>, id: &str) -> (r: Option<usize>)
    ensures
        match r {
            Some(i) => last_named(boundary_nodes_view(nodes@), id@) == Some(i as int),
            None => last_named(boundary_nodes_view(nodes@), id@) is None,
        },
{
    let ghost nv = boundary_nodes_view(nodes@);
    let mut k = nodes.len();
    assert(nv.take(k as int) =~= nv);
    while k > 0
        invariant
            nv == boundary_nodes_view(nodes@),
            k <= nodes@.len(),
            last_named(nv, id@) == last_named(nv.take(k as int), id@),
        decreases k,
    {
        assert(nv.take(k as int).last() == nv[k - 1]);
        assert(nv.take(k as int).drop_last() =~= nv.take(k - 1));
        if str_eq(nodes[k - 1].id.as_str(), id) {
            return Some(k - 1);
        }
        k = k - 1;
    }
    None
}

fn hold_pressure_exec<P: Copy>(nodes: &mut Vec<BoundaryNode<P>>, id: &str, p: P)
    ensures
        boundary_nodes_view(final(nodes)@) == hold_pressure(boundary_nodes_view(old(nodes)@), id@, p),
{
    proof {
        lemma_last_named(boundary_nodes_view(nodes@), id@);
    }
    match last_named_exec(nodes, id) {
        Some(i) => {
            if nodes[i].pressure_fixed_bar.is_none() {
                let ghost before = boundary_nodes_view(nodes@);
                let name = nodes[i].id.clone();
                nodes.set(i, BoundaryNode { id: name, pressure_fixed_bar: Some(p) });
                assert(boundary_nodes_view(nodes@) =~= before.update(i as int, (id@, Some(p))));
            }
        },
        None => {},
    }
}

fn hold_all_exec<P: Copy>(nodes: &mut Vec<BoundaryNode<P>>, hints: &Vec<PressureSlackHint<P>>)
    ensures
        boundary_nodes_view(final(nodes)@) == hold_all(boundary_nodes_view(old(nodes)@), hints_view(hints@)),
{
    let ghost start = boundary_nodes_view(nodes@);
    let ghost hv = hints_view(hints@);
    let mut i: usize = 0;
    assert(hv.take(0) =~= Seq::<HintView<P>>::empty());
    while i < hints.len()
        invariant
            hv == hints_view(hints@),
            i <= hv.len(),
            boundary_nodes_view(nodes@) == hold_all(start, hv.take(i as int)),
        decreases hv.len() - i,
    {
        assert(hv.take(i + 1).drop_last() =~= hv.take(i as int));
        assert(hv.take(i + 1).last() == hint_view(hints@[i as int]));
        hold_pressure_exec(nodes, hints[i].node_id.as_str(), hints[i].pressure_bar);
        i = i + 1;
    }
    assert(hv.take(hv.len() as int) =~= hv);
}

/// Applies the scenario's boundary conditions to the network (see `boundaries_applied`).
pub fn apply_scenario_boundaries<P: Copy>(nodes: &mut Vec<BoundaryNode<P>>, a: &ScenarioAnchors<P>)
    ensures
        boundary_nodes_view(final(nodes)@) == boundaries_applied(boundary_nodes_view(old(nodes)@), anchors_view(*a)),
{
    let ghost nv = boundary_nodes_view(nodes@);
    let mut any_fixed = false;
    let mut k: usize = 0;
    while k < nodes.len()
        invariant
            nv == boundary_nodes_view(nodes@),
            k <= nodes@.len(),
            any_fixed <==> exists|j: int| 0 <= j < k && (#[trigger] nv[j]).1 is Some,
        decreases nodes@.len() - k,
    {
        if nodes[k].pressure_fixed_bar.is_some() {
            assert(nv[k as int].1 is Some);
            any_fixed = true;
        }
        k = k + 1;
    }
    if !any_fixed {
        match &a.pressure_slack {
            Some(h) => hold_pressure_exec(nodes, h.node_id.as_str(), h.pressure_bar),
            None => {},
        }
    }
    hold_all_exec(nodes, &a.balance_hubs);
    hold_all_exec(nodes, &a.boundary_spine_anchors);
    hold_all_exec(nodes, &a.junction_anchors);
    hold_all_exec(nodes, &a.mass_balance_anchors);
    hold_all_exec(nodes, &a.contract_pressure_anchors);
}

/// The nodes whose nominated demand the solver does not impose: the pressure slack and
/// the relaxed boundaries.
pub open spec fn freed_demand<P>(a: AnchorsView<P>, x: Seq<char>) -> bool {
    (a.slack matches Some(h) && h.0 == x) || a.relaxed.contains(x)
}

/// The demands the solver imposes: the given ones (entries by node, in order) without those
/// of the pressure slack and of the relaxed boundaries.
pub fn effective_solver_demands<D: Copy, P>(demands: &Vec<(String, D)>, a: &ScenarioAnchors<P>) -> (r: Vec<(String, D)>)
    ensures
        entries_view(r@) == entries_view(demands@).filter(|e: Keyed<D>| !freed_demand(anchors_view(*a), e.0)),
        to_map(entries_view(r@)) == to_map(entries_view(demands@)).remove_keys(
            Set::new(|x: Seq<char>| freed_demand(anchors_view(*a), x)),
        ),
{
    let ghost av = anchors_view(*a);
    let ghost ev = entries_view(demands@);
    let ghost keep = |e: Keyed<D>| !freed_demand(av, e.0);
    let mut out: Vec<(String, D)> = Vec::new();
    let mut i: usize = 0;
    assert(entries_view(out@) =~= ev.take(0).filter(keep));
    while i < demands.len()
        invariant
            av == anchors_view(*a),
            ev == entries_view(demands@),
            keep == (|e: Keyed<D>| !freed_demand(av, e.0)),
            i <= ev.len(),
            entries_view(out@) == ev.take(i as int).filter(keep),
        decreases ev.len() - i,
    {
        let e = &demands[i];
        let is_slack = match &a.pressure_slack {
            Some(h) => str_eq(h.node_id.as_str(), e.0.as_str()),
            None => false,
        };
        proof {
            assert(ev.take(i + 1).drop_last() =~= ev.take(i as int));
            assert(ev.take(i + 1).last() == ev[i as int]);
            reveal(Seq::filter);
        }
        if !is_slack && !listed(&a.contract_flow_relaxed, &e.0) {
            let ghost before = entries_view(out@);
            out.push((e.0.clone(), e.1));
            assert(entries_view(out@) =~= before.push(ev[i as int]));
        }
        i = i + 1;
    }
    assert(ev.take(ev.len() as int) =~= ev);
    proof {
        lemma_to_map_filter(ev, av);
    }
    out
}

/// Dropping entries whose node is freed drops those keys from the map the entries give.
pub proof fn lemma_to_map_filter<D, P>(s: Seq<Keyed<D>>, a: AnchorsView<P>)
    ensures
        to_map(s.filter(|e: Keyed<D>| !freed_demand(a, e.0))) == to_map(s).remove_keys(
            Set::new(|x: Seq<char>| freed_demand(a, x)),
        ),
    decreases s.len(),
{
    let keep = |e: Keyed<D>| !freed_demand(a, e.0);
    let gone = Set::new(|x: Seq<char>| freed_demand(a, x));
    reveal(Seq::filter);
    if s.len() == 0 {
        assert(to_map(s).remove_keys(gone) =~= to_map(s.filter(keep)));
    } else {
        let d = s.drop_last();
        lemma_to_map_filter(d, a);
        let x = s.last();
        if keep(x) {
            assert(s.filter(keep) == d.filter(keep).push(x));
            assert(s.filter(keep).drop_last() =~= d.filter(keep));
            assert(to_map(s.filter(keep)) =~= to_map(s).remove_keys(gone));
        } else {
            assert(s.filter(keep) == d.filter(keep));
            assert(to_map(s.filter(keep)) =~= to_map(s).remove_keys(gone));
        }
    }
}

/// The demands the solver imposes (see `effective_solver_demands`).
pub fn demands_without_pressure_slack<D: Copy, P>(demands: &Vec<(String, D)>, a: &ScenarioAnchors<P>) -> (r: Vec<(String, D)>)
    ensures
        entries_view(r@) == entries_view(demands@).filter(|e: Keyed<D>| !freed_demand(anchors_view(*a), e.0)),
{
    effective_solver_demands(demands, a)
}

/// The pressure envelope a scenario gives a node: optional lower and upper bounds [bar].
pub struct PressureEnvelope<P> {
    pub node_id: String,
    pub lower_bar: Option<P>,
    pub upper_bar: Option<P>,
}

pub type EnvelopeView<P> = (Seq<char>, Option<P>, Option<P>);

pub open spec fn envelopes_view<P>(v: Seq<PressureEnvelope<P>>) -> Seq<EnvelopeView<P>> {
    v.map_values(|e: PressureEnvelope<P>| (e.node_id@, e.lower_bar, e.upper_bar))
}

/// The network after anchoring, in order, each envelope's node at its lower bound: not
/// for a node that already holds an anchor of the scenario, nor for an envelope without a
/// lower bound, nor for a node whose pressure is already imposed.
pub open spec fn floor_anchored<P>(ns: Seq<BoundaryNodeView<P>>, es: Seq<EnvelopeView<P>>, a: AnchorsView<P>) -> Seq<BoundaryNodeView<P>>
    decreases es.len(),
{
    if es.len() == 0 {
        ns
    } else {
        let r = floor_anchored(ns, es.drop_last(), a);
        let e = es.last();
        if reserved(a, e.0) {
            r
        } else {
            match e.1 {
                Some(lo) => hold_pressure(r, e.0, lo),
                None => r,
            }
        }
    }
}

/// Anchors the pressure of the envelopes' nodes at their lower bounds (see
/// `floor_anchored`) when `enabled`; else nothing changes.
pub fn apply_scenario_pressure_floor_anchors<P: Copy>(
    nodes: &mut Vec<BoundaryNode<P>>,
    envelopes: &Vec<PressureEnvelope<P>>,
    a: &ScenarioAnchors<P>,
    enabled: bool,
)
    ensures
        boundary_nodes_view(final(nodes)@) == if enabled {
            floor_anchored(boundary_nodes_view(old(nodes)@), envelopes_view(envelopes@), anchors_view(*a))
        } else {
            boundary_nodes_view(old(nodes)@)
        },
{
    if !enabled {
        return;
    }
    let reserved_ids = all_applied_anchor_ids(a);
    let ghost start = boundary_nodes_view(nodes@);
    let ghost ev = envelopes_view(envelopes@);
    let ghost av = anchors_view(*a);
    let mut i: usize = 0;
    assert(ev.take(0) =~= Seq::<EnvelopeView<P>>::empty());
    while i < envelopes.len()
        invariant
            ev == envelopes_view(envelopes@),
            av == anchors_view(*a),
            forall|x: Seq<char>| #[trigger] ids_view(reserved_ids@).contains(x) <==> reserved(av, x),
            i <= ev.len(),
            boundary_nodes_view(nodes@) == floor_anchored(start, ev.take(i as int), av),
        decreases ev.len() - i,
    {
        assert(ev.take(i + 1).drop_last() =~= ev.take(i as int));
        assert(ev.take(i + 1).last() == ev[i as int]);
        let e = &envelopes[i];
        let mut taken = false;
        let mut k: usize = 0;
        while k < reserved_ids.len()
            invariant
                k <= reserved_ids@.len(),
                taken <==> exists|j: int| 0 <= j < k && (#[trigger] ids_view(reserved_ids@)[j]) == e.node_id@,
            decreases reserved_ids@.len() - k,
        {
            assert(ids_view(reserved_ids@)[k as int] == reserved_ids@[k as int]@);
            if str_eq(reserved_ids[k].as_str(), e.node_id.as_str()) {
                taken = true;
            }
            k = k + 1;
        }
        assert(taken == ids_view(reserved_ids@).contains(e.node_id@));
        if !taken {
            match e.lower_bar {
                Some(lo) => hold_pressure_exec(nodes, e.node_id.as_str(), lo),
                None => {},
            }
        }
        i = i + 1;
    }
    assert(ev.take(ev.len() as int) =~= ev);
}

/// `j` is the position of the last node named `x`.
pub open spec fn is_last_named<P>(ns: Seq<BoundaryNodeView<P>>, x: Seq<char>, j: int) -> bool {
    &&& 0 <= j < ns.len()
    &&& ns[j].0 == x
    &&& forall|m: int| j < m < ns.len() ==> (#[trigger] ns[m]).0 != x
}

/// No hint before position `k` names the node that hint `k` names.
pub open spec fn first_for_its_node<P>(hs: Seq<HintView<P>>, k: int) -> bool {
    forall|q: int| 0 <= q < k ==> (#[trigger] hs[q]).0 != hs[k].0
}

proof fn lemma_last_named_at<P>(ns: Seq<BoundaryNodeView<P>>, x: Seq<char>, j: int)
    requires
        is_last_named(ns, x, j),
    ensures
        last_named(ns, x) == Some(j),
    decreases ns.len(),
{
    if j < ns.len() - 1 {
        assert(ns[ns.len() - 1].0 != x);
        let d = ns.drop_last();
        assert forall|m: int| j < m < d.len() implies (#[trigger] d[m]).0 != x by {
            assert(d[m] == ns[m]);
        }
        lemma_last_named_at(d, x, j);
    }
}

proof fn lemma_hold_pressure_facts<P>(ns: Seq<BoundaryNodeView<P>>, x: Seq<char>, p: P)
    ensures
        hold_pressure(ns, x, p).len() == ns.len(),
        forall|i: int| 0 <= i < ns.len() ==> (#[trigger] hold_pressure(ns, x, p)[i]).0 == ns[i].0,
        forall|i: int| 0 <= i < ns.len() && (#[trigger] hold_pressure(ns, x, p)[i]).1 != ns[i].1 ==> ns[i].1 is None
            && ns[i].0 == x && hold_pressure(ns, x, p)[i].1 == Some(p),
        forall|j: int| #[trigger] is_last_named(ns, x, j) ==> hold_pressure(ns, x, p)[j].1 is Some && (ns[j].1 is None
            ==> hold_pressure(ns, x, p)[j].1 == Some(p)),
{
    lemma_last_named(ns, x);
    assert forall|j: int| #[trigger] is_last_named(ns, x, j) implies hold_pressure(ns, x, p)[j].1 is Some && (ns[j].1 is None
        ==> hold_pressure(ns, x, p)[j].1 == Some(p)) by {
        lemma_last_named_at(ns, x, j);
    }
}

proof fn lemma_hold_all_concat<P>(ns: Seq<BoundaryNodeView<P>>, hs: Seq<HintView<P>>, gs: Seq<HintView<P>>)
    ensures
        hold_all(hold_all(ns, hs), gs) == hold_all(ns, hs + gs),
    decreases gs.len(),
{
    if gs.len() == 0 {
        assert(hs + gs =~= hs);
    } else {
        lemma_hold_all_concat(ns, hs, gs.drop_last());
        assert((hs + gs).drop_last() =~= hs + gs.drop_last());
        assert((hs + gs).last() == gs.last());
    }
}

proof fn lemma_hold_all_facts<P>(ns: Seq<BoundaryNodeView<P>>, hs: Seq<HintView<P>>)
    ensures
        hold_all(ns, hs).len() == ns.len(),
        forall|i: int| 0 <= i < ns.len() ==> (#[trigger] hold_all(ns, hs)[i]).0 == ns[i].0,
        forall|i: int| 0 <= i < ns.len() && (#[trigger] hold_all(ns, hs)[i]).1 != ns[i].1 ==> ns[i].1 is None
            && exists|k: int| 0 <= k < hs.len() && (#[trigger] hs[k]).0 == ns[i].0 && hold_all(ns, hs)[i].1 == Some(hs[k].1),
        forall|k: int, j: int| 0 <= k < hs.len() && #[trigger] is_last_named(ns, hs[k].0, j) ==> hold_all(ns, hs)[j].1 is Some,
        forall|k: int, j: int|
            0 <= k < hs.len() && #[trigger] is_last_named(ns, hs[k].0, j) && ns[j].1 is None && first_for_its_node(hs, k)
                ==> hold_all(ns, hs)[j].1 == Some(hs[k].1),
    decreases hs.len(),
{
    if hs.len() > 0 {
        let h0 = hs.drop_last();
        let h = hs.last();
        lemma_hold_all_facts(ns, h0);
        let r0 = hold_all(ns, h0);
        let r = hold_all(ns, hs);
        assert(r == hold_pressure(r0, h.0, h.1));
        lemma_hold_pressure_facts(r0, h.0, h.1);
        assert forall|i: int| 0 <= i < ns.len() && (#[trigger] r[i]).1 != ns[i].1 implies ns[i].1 is None
            && exists|k: int| 0 <= k < hs.len() && (#[trigger] hs[k]).0 == ns[i].0 && r[i].1 == Some(hs[k].1) by {
            assert(r[i].0 == r0[i].0);
            if r0[i].1 != ns[i].1 {
                let k = choose|k: int| 0 <= k < h0.len() && (#[trigger] h0[k]).0 == ns[i].0 && r0[i].1 == Some(h0[k].1);
                assert(hs[k] == h0[k]);
                assert(r[i].1 == r0[i].1);
            } else {
                assert(r[i].1 != r0[i].1);
                assert(hs[hs.len() - 1] == h);
            }
        }
        assert forall|k: int, j: int| 0 <= k < hs.len() && #[trigger] is_last_named(ns, hs[k].0, j) implies r[j].1 is Some by {
            let x = hs[k].0;
            assert forall|m: int| j < m < r0.len() implies (#[trigger] r0[m]).0 != x by {
                assert(r0[m].0 == ns[m].0);
            }
            assert(is_last_named(r0, x, j));
            if k < h0.len() {
                assert(h0[k] == hs[k]);
                assert(is_last_named(ns, h0[k].0, j));
                assert(r0[j].1 is Some);
                if r[j].1 != r0[j].1 {
                    assert(r0[j].1 is None);
                }
            } else {
                assert(hs[k] == h);
            }
        }
        assert forall|k: int, j: int|
            0 <= k < hs.len() && #[trigger] is_last_named(ns, hs[k].0, j) && ns[j].1 is None && first_for_its_node(hs, k)
                implies r[j].1 == Some(hs[k].1) by {
            let x = hs[k].0;
            assert forall|m: int| j < m < r0.len() implies (#[trigger] r0[m]).0 != x by {
                assert(r0[m].0 == ns[m].0);
            }
            assert(is_last_named(r0, x, j));
            if k < h0.len() {
                assert(h0[k] == hs[k]);
                assert(is_last_named(ns, h0[k].0, j));
                assert forall|q: int| 0 <= q < k implies (#[trigger] h0[q]).0 != h0[k].0 by {
                    assert(h0[q] == hs[q]);
                }
                assert(first_for_its_node(h0, k));
                assert(r0[j].1 == Some(hs[k].1));
                if r[j].1 != r0[j].1 {
                    assert(r0[j].1 is None);
                }
            } else {
                assert(hs[k] == h);
                if r0[j].1 != ns[j].1 {
                    let q = choose|q: int| 0 <= q < h0.len() && (#[trigger] h0[q]).0 == ns[j].0 && r0[j].1 == Some(h0[q].1);
                    assert(hs[q] == h0[q]);
                    assert(hs[q].0 != hs[k].0);
                }
                assert(r0[j].1 is None);
            }
        }
    }
}

/// What applying a scenario's boundary conditions does to the network's nodes: no node is
/// added, dropped or renamed, and an imposed pressure stays; the pressure slack, when no node
/// had an imposed pressure, holds its node at its pressure; every hub, spine, junction,
/// mass-balance and contract anchor whose node exists leaves that node (the last of its name)
/// with an imposed pressure, the first such anchor's pressure when the node had none and the
/// slack did not take it; and no other node's pressure changes.
pub proof fn lemma_boundaries_hold_every_anchor<P>(ns: Seq<BoundaryNodeView<P>>, a: AnchorsView<P>)
    ensures
        ({
            let r = boundaries_applied(ns, a);
            let all = a.hubs + a.spines + a.junctions + a.mass + a.contract;
            let slack_applies = forall|i: int| 0 <= i < ns.len() ==> (#[trigger] ns[i]).1 is None;
            &&& r.len() == ns.len()
            &&& forall|i: int| 0 <= i < ns.len() ==> (#[trigger] r[i]).0 == ns[i].0
            &&& forall|i: int| 0 <= i < ns.len() && ns[i].1 is Some ==> (#[trigger] r[i]).1 == ns[i].1
            &&& forall|j: int|
                a.slack is Some && slack_applies && #[trigger] is_last_named(ns, (a.slack->0).0, j) ==> r[j].1 == Some(
                    (a.slack->0).1,
                )
            &&& forall|k: int, j: int| 0 <= k < all.len() && #[trigger] is_last_named(ns, all[k].0, j) ==> r[j].1 is Some
            &&& forall|k: int, j: int|
                0 <= k < all.len() && #[trigger] is_last_named(ns, all[k].0, j) && ns[j].1 is None && first_for_its_node(all, k)
                    && !(a.slack matches Some(h) && slack_applies && h.0 == all[k].0) ==> r[j].1 == Some(all[k].1)
            &&& forall|i: int|
                0 <= i < ns.len() && (#[trigger] r[i]).1 != ns[i].1 ==> ns[i].1 is None && ((a.slack matches Some(h) && h.0
                    == ns[i].0 && r[i].1 == Some(h.1)) || exists|k: int|
                    0 <= k < all.len() && (#[trigger] all[k]).0 == ns[i].0 && r[i].1 == Some(all[k].1))
        }),
{
    let r = boundaries_applied(ns, a);
    let all = a.hubs + a.spines + a.junctions + a.mass + a.contract;
    let slack_applies = forall|i: int| 0 <= i < ns.len() ==> (#[trigger] ns[i]).1 is None;
    let ns0 = match a.slack {
        Some(h) => if slack_applies {
            hold_pressure(ns, h.0, h.1)
        } else {
            ns
        },
        None => ns,
    };
    lemma_hold_all_concat(ns0, a.hubs, a.spines);
    lemma_hold_all_concat(ns0, a.hubs + a.spines, a.junctions);
    lemma_hold_all_concat(ns0, a.hubs + a.spines + a.junctions, a.mass);
    lemma_hold_all_concat(ns0, a.hubs + a.spines + a.junctions + a.mass, a.contract);
    assert(r == hold_all(ns0, all));
    lemma_hold_all_facts(ns0, all);
    match a.slack {
        Some(h) => {
            lemma_hold_pressure_facts(ns, h.0, h.1);
        },
        None => {},
    }
    assert(ns0.len() == ns.len());
    assert forall|i: int| 0 <= i < ns.len() implies #[trigger] ns0[i].0 == ns[i].0 by {}
    assert forall|i: int| 0 <= i < ns.len() && ns[i].1 is Some implies (#[trigger] r[i]).1 == ns[i].1 by {
        assert(ns0[i].1 == ns[i].1);
    }
    assert forall|j: int|
        a.slack is Some && slack_applies && #[trigger] is_last_named(ns, (a.slack->0).0, j) implies r[j].1 == Some(
            (a.slack->0).1,
        ) by {
        if a.slack is Some {
            let h = a.slack->0;
            if slack_applies && is_last_named(ns, h.0, j) {
                assert(ns0[j].1 == Some(h.1));
                assert(r[j].1 == ns0[j].1);
            }
        }
    }
    assert forall|k: int, j: int| 0 <= k < all.len() && #[trigger] is_last_named(ns, all[k].0, j) implies r[j].1 is Some by {
        let x = all[k].0;
        assert forall|m: int| j < m < ns0.len() implies (#[trigger] ns0[m]).0 != x by {
            assert(ns0[m].0 == ns[m].0);
        }
        assert(is_last_named(ns0, all[k].0, j));
    }
    assert forall|k: int, j: int|
        0 <= k < all.len() && #[trigger] is_last_named(ns, all[k].0, j) && ns[j].1 is None && first_for_its_node(all, k)
            && !(a.slack matches Some(h) && slack_applies && h.0 == all[k].0) implies r[j].1 == Some(all[k].1) by {
        let x = all[k].0;
        assert forall|m: int| j < m < ns0.len() implies (#[trigger] ns0[m]).0 != x by {
            assert(ns0[m].0 == ns[m].0);
        }
        assert(is_last_named(ns0, all[k].0, j));
        if ns0[j].1 != ns[j].1 {
            let h = a.slack->0;
            assert(ns[j].0 == h.0);
        }
        assert(ns0[j].1 is None);
    }
    assert forall|i: int| 0 <= i < ns.len() && (#[trigger] r[i]).1 != ns[i].1 implies ns[i].1 is None && ((a.slack matches Some(h)
        && h.0 == ns[i].0 && r[i].1 == Some(h.1)) || exists|k: int|
        0 <= k < all.len() && (#[trigger] all[k]).0 == ns[i].0 && r[i].1 == Some(all[k].1)) by {
        if ns0[i].1 != ns[i].1 {
            assert(r[i].1 == ns0[i].1);
        } else {
            assert(r[i].1 != ns0[i].1);
            let k = choose|k: int| 0 <= k < all.len() && (#[trigger] all[k]).0 == ns0[i].0 && r[i].1 == Some(all[k].1);
            assert(all[k].0 == ns[i].0);
        }
    }
}

} // verus!
