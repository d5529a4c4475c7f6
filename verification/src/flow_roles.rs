//! Roles of the compressor stations for the map flow estimate: which transport stations
//! merge parallel branches, which feed such a merger, and the neighbourhoods the local
//! delivery of a distribution station is summed over.

use vstd::prelude::*;

use crate::connectivity::{hydraulically_active, spec_hydraulically_active, NetworkArc};
use crate::boundary::{has_prefix, has_prefix_exec};
use crate::diff::{ids_view, lemma_seq_less_total, lemma_seq_less_transitive, seq_less, str_less};
use crate::junctions::listed;
use crate::labels::ConnectionKind;

verus! {

/// How a compressor station ranks by its pressure cap ratio (the ratio itself is a float
/// the caller compares): below 2, from 2 (transport), or from 3 (high transport).
#[derive(Debug, Clone, Copy, PartialEq, Eq, Structural)]
pub enum CapClass {
    Low,
    Transport,
    HighTransport,
}

/// An arc of the network with the class of its pressure cap ratio (a station without a
/// cap counts as ratio 1, so `Low`).
pub struct RatedArc {
    pub arc: NetworkArc,
    pub cap: CapClass,
}

pub open spec fn known(ids: Seq<Seq<char>>, x: Seq<char>) -> bool {
    ids.contains(x)
}

/// An edge of the graph that the searches follow: an arc between two nodes of the network
/// that is not a compressor station.
pub open spec fn graph_step(ids: Seq<Seq<char>>, a: RatedArc) -> bool {
    a.arc.kind != ConnectionKind::CompressorStation && known(ids, a.arc.from@) && known(ids, a.arc.to@)
}

/// `x` is reached from `s` in at most `k` steps along such edges, in their direction.
pub open spec fn downstream_within(arcs: Seq<RatedArc>, ids: Seq<Seq<char>>, s: Seq<char>, x: Seq<char>, k: nat) -> bool
    decreases k,
{
    if k == 0 {
        x == s
    } else {
        downstream_within(arcs, ids, s, x, (k - 1) as nat) || exists|j: int|
            0 <= j < arcs.len() && graph_step(ids, #[trigger] arcs[j]) && arcs[j].arc.to@ == x
                && downstream_within(arcs, ids, s, arcs[j].arc.from@, (k - 1) as nat)
    }
}

fn is_known(ids: &Vec<String>, x: &String) -> (r: bool)
    ensures
        r == known(ids_view(ids@), x@),
{
    listed(ids, x)
}

fn is_graph_step(ids: &Vec<String>, a: &RatedArc) -> (r: bool)
    ensures
        r == graph_step(ids_view(ids@), *a),
{
    a.arc.kind != ConnectionKind::CompressorStation && is_known(ids, &a.arc.from) && is_known(ids, &a.arc.to)
}

/// The names of `reached`, with the downstream ends of the edges that leave one of them.
fn step_downstream(arcs: &Vec<RatedArc>, ids: &Vec<String>, reached: &Vec<String>) -> (r: Vec<String>)
    ensures
        forall|x: Seq<char>| #[trigger] ids_view(r@).contains(x) <==> ids_view(reached@).contains(x) || exists|j: int|
            0 <= j < arcs@.len() && graph_step(ids_view(ids@), #[trigger] arcs@[j]) && arcs@[j].arc.to@ == x
                && ids_view(reached@).contains(arcs@[j].arc.from@),
{
    let ghost old_r = ids_view(reached@);
    let mut out: Vec<String> = Vec::new();
    let mut i: usize = 0;
    while i < reached.len()
        invariant
            old_r == ids_view(reached@),
            i <= reached@.len(),
            ids_view(out@) == old_r.take(i as int),
        decreases reached@.len() - i,
    {
        let ghost before = ids_view(out@);
        out.push(reached[i].clone());
        assert(ids_view(out@) =~= before.push(old_r[i as int]));
        assert(old_r.take(i + 1) =~= old_r.take(i as int).push(old_r[i as int]));
        i = i + 1;
    }
    assert(old_r.take(old_r.len() as int) =~= old_r);
    let mut k: usize = 0;
    while k < arcs.len()
        invariant
            old_r == ids_view(reached@),
            k <= arcs@.len(),
            forall|x: Seq<char>| #[trigger] ids_view(out@).contains(x) <==> old_r.contains(x) || exists|j: int|
                0 <= j < k && graph_step(ids_view(ids@), #[trigger] arcs@[j]) && arcs@[j].arc.to@ == x
                    && old_r.contains(arcs@[j].arc.from@),
        decreases arcs@.len() - k,
    {
        let a = &arcs[k];
        if is_graph_step(ids, a) && listed(reached, &a.arc.from) {
            let ghost before = ids_view(out@);
            out.push(a.arc.to.clone());
            proof {
                assert(ids_view(out@) =~= before.push(a.arc.to@));
                assert forall|x: Seq<char>| #[trigger] ids_view(out@).contains(x) <==> old_r.contains(x) || exists|j: int|
                    0 <= j < k + 1 && graph_step(ids_view(ids@), #[trigger] arcs@[j]) && arcs@[j].arc.to@ == x
                        && old_r.contains(arcs@[j].arc.from@) by {
                    if ids_view(out@).contains(x) && x != a.arc.to@ {
                        let t = choose|t: int| 0 <= t < ids_view(out@).len() && ids_view(out@)[t] == x;
                        assert(before[t] == x);
                    }
                    if x == a.arc.to@ {
                        assert(ids_view(out@)[before.len() as int] == x);
                    }
                    if before.contains(x) {
                        let t = choose|t: int| 0 <= t < before.len() && before[t] == x;
                        assert(ids_view(out@)[t] == x);
                    }
                }
            }
        }
        k = k + 1;
    }
    out
}

/// Number of steps the merge search looks ahead.
pub const TOPOLOGY_REACH_MAX_HOPS: usize = 12;

/// Whether the node `merge_inlet` lies downstream of `start_node` within
/// `TOPOLOGY_REACH_MAX_HOPS` steps, without crossing a compressor station; both must be
/// nodes of the network.
pub fn reaches_merge_inlet(arcs: &Vec<RatedArc>, node_ids: &Vec<String>, start_node: &String, merge_inlet: &String) -> (r: bool)
    ensures
        r == (known(ids_view(node_ids@), start_node@) && known(ids_view(node_ids@), merge_inlet@) && downstream_within(
            arcs@,
            ids_view(node_ids@),
            start_node@,
            merge_inlet@,
            TOPOLOGY_REACH_MAX_HOPS as nat,
        )),
{
    if !is_known(node_ids, start_node) || !is_known(node_ids, merge_inlet) {
        return false;
    }
    let ghost ids = ids_view(node_ids@);
    let mut reached: Vec<String> = Vec::new();
    reached.push(start_node.clone());
    proof {
        assert forall|x: Seq<char>| #[trigger] ids_view(reached@).contains(x) <==> downstream_within(arcs@, ids, start_node@, x, 0) by {
            if ids_view(reached@).contains(x) {
                let t = choose|t: int| 0 <= t < ids_view(reached@).len() && ids_view(reached@)[t] == x;
            }
            if x == start_node@ {
                assert(ids_view(reached@)[0] == x);
            }
        }
    }
    let mut k: usize = 0;
    while k < TOPOLOGY_REACH_MAX_HOPS
        invariant
            ids == ids_view(node_ids@),
            k <= TOPOLOGY_REACH_MAX_HOPS,
            forall|x: Seq<char>| #[trigger] ids_view(reached@).contains(x) <==> downstream_within(arcs@, ids, start_node@, x, k as nat),
        decreases TOPOLOGY_REACH_MAX_HOPS - k,
    {
        let next = step_downstream(arcs, node_ids, &reached);
        proof {
            assert forall|x: Seq<char>| #[trigger] ids_view(next@).contains(x) <==> downstream_within(arcs@, ids, start_node@, x, (k + 1) as nat) by {
                if downstream_within(arcs@, ids, start_node@, x, (k + 1) as nat) && !downstream_within(arcs@, ids, start_node@, x, k as nat) {
                    let j = choose|j: int|
                        0 <= j < arcs@.len() && graph_step(ids, #[trigger] arcs@[j]) && arcs@[j].arc.to@ == x
                            && downstream_within(arcs@, ids, start_node@, arcs@[j].arc.from@, k as nat);
                    assert(ids_view(reached@).contains(arcs@[j].arc.from@));
                }
            }
        }
        reached = next;
        k = k + 1;
    }
    listed(&reached, merge_inlet)
}

/// Whether `goal` lies downstream of `start` as `reaches_merge_inlet` finds it.
pub open spec fn merge_reach(arcs: Seq<RatedArc>, ids: Seq<Seq<char>>, start: Seq<char>, goal: Seq<char>) -> bool {
    known(ids, start) && known(ids, goal) && downstream_within(arcs, ids, start, goal, TOPOLOGY_REACH_MAX_HOPS as nat)
}

/// An active compressor station of the high-transport class.
pub open spec fn high_transport_station(a: RatedArc) -> bool {
    a.arc.kind == ConnectionKind::CompressorStation && spec_hydraulically_active(a.arc) && a.cap == CapClass::HighTransport
}

/// The active high-transport stations, in order.
pub open spec fn high_stations(arcs: Seq<RatedArc>) -> Seq<RatedArc> {
    arcs.filter(|a: RatedArc| high_transport_station(a))
}

/// Station `o` feeds station `m`: another high-transport station whose outlet reaches the
/// inlet of `m`.
pub open spec fn feeds(arcs: Seq<RatedArc>, ids: Seq<Seq<char>>, m: RatedArc, o: RatedArc) -> bool {
    o.arc.id@ != m.arc.id@ && merge_reach(arcs, ids, o.arc.to@, m.arc.from@)
}

/// The stations that feed `m`, in order.
pub open spec fn feeders(arcs: Seq<RatedArc>, ids: Seq<Seq<char>>, m: RatedArc) -> Seq<RatedArc> {
    high_stations(arcs).filter(|o: RatedArc| feeds(arcs, ids, m, o))
}

/// The identifiers of the hub mergers: high-transport stations fed by two or more others.
pub open spec fn hub_ids(arcs: Seq<RatedArc>, ids: Seq<Seq<char>>) -> Seq<Seq<char>> {
    high_stations(arcs).filter(|m: RatedArc| feeders(arcs, ids, m).len() >= 2).map_values(|m: RatedArc| m.arc.id@)
}

/// The branch entries that merger `m` gives: each feeder, with `m` and the number of its
/// feeders (at least one).
pub open spec fn merger_entries(arcs: Seq<RatedArc>, ids: Seq<Seq<char>>, m: RatedArc) -> Seq<(Seq<char>, (Seq<char>, usize))> {
    let fs = feeders(arcs, ids, m);
    let n: usize = if fs.len() > 1 { fs.len() as usize } else { 1 };
    fs.map_values(|f: RatedArc| (f.arc.id@, (m.arc.id@, n)))
}

pub open spec fn entries_of(arcs: Seq<RatedArc>, ids: Seq<Seq<char>>, ms: Seq<RatedArc>) -> Seq<(Seq<char>, (Seq<char>, usize))>
    decreases ms.len(),
{
    if ms.len() == 0 {
        Seq::empty()
    } else {
        entries_of(arcs, ids, ms.drop_last()) + merger_entries(arcs, ids, ms.last())
    }
}

/// The branch entries of all mergers: those high-transport stations whose identifier is a
/// hub's, in order; of two entries for one feeder the later counts.
pub open spec fn branch_entries(arcs: Seq<RatedArc>, ids: Seq<Seq<char>>) -> Seq<(Seq<char>, (Seq<char>, usize))> {
    entries_of(arcs, ids, high_stations(arcs).filter(|m: RatedArc| hub_ids(arcs, ids).contains(m.arc.id@)))
}

/// The hub mergers and the feeders of each.
pub struct CompressorFlowRoles {
    pub hub_mergers: Vec<String>,
    /// For each feeder: its merger and the number of parallel feeders (later entries of a
    /// feeder replace earlier ones).
    pub branch_to_merger: Vec<(String, (String, usize))>,
}

pub open spec fn branch_view(v: Seq<(String, (String, usize))>) -> Seq<(Seq<char>, (Seq<char>, usize))> {
    v.map_values(|e: (String, (String, usize))| (e.0@, (e.1.0@, e.1.1)))
}

pub open spec fn at_indices(arcs: Seq<RatedArc>, idx: Seq<usize>) -> Seq<RatedArc> {
    idx.map_values(|i: usize| arcs[i as int])
}

/// Positions of the arcs that pass `keep`, for the high-transport stations.
fn high_station_indices(arcs: &Vec<RatedArc>) -> (r: Vec<usize>)
    ensures
        at_indices(arcs@, r@) == high_stations(arcs@),
        forall|t: int| 0 <= t < r@.len() ==> r@[t] < arcs@.len(),
{
    let ghost hp = |a: RatedArc| high_transport_station(a);
    let mut out: Vec<usize> = Vec::new();
    let mut k: usize = 0;
    assert(arcs@.take(0).filter(hp) =~= Seq::<RatedArc>::empty()) by {
        reveal(Seq::filter);
    }
    while k < arcs.len()
        invariant
            hp == (|a: RatedArc| high_transport_station(a)),
            k <= arcs@.len(),
            at_indices(arcs@, out@) == arcs@.take(k as int).filter(hp),
            forall|t: int| 0 <= t < out@.len() ==> out@[t] < arcs@.len(),
        decreases arcs@.len() - k,
    {
        let a = &arcs[k];
        proof {
            assert(arcs@.take(k + 1).drop_last() =~= arcs@.take(k as int));
            assert(arcs@.take(k + 1).last() == arcs@[k as int]);
            reveal(Seq::filter);
        }
        if a.arc.kind == ConnectionKind::CompressorStation && hydraulically_active(&a.arc) && a.cap == CapClass::HighTransport {
            let ghost before = out@;
            out.push(k);
            assert(at_indices(arcs@, out@) =~= at_indices(arcs@, before).push(arcs@[k as int]));
        }
        k = k + 1;
    }
    assert(arcs@.take(arcs@.len() as int) =~= arcs@);
    out
}

/// Positions (among `hi`, the high-transport stations) of the feeders of station `m`.
fn feeder_indices(arcs: &Vec<RatedArc>, ids: &Vec<String>, hi: &Vec<usize>, m: usize) -> (r: Vec<usize>)
    requires
        at_indices(arcs@, hi@) == high_stations(arcs@),
        forall|t: int| 0 <= t < hi@.len() ==> hi@[t] < arcs@.len(),
        m < arcs@.len(),
    ensures
        at_indices(arcs@, r@) == feeders(arcs@, ids_view(ids@), arcs@[m as int]),
        forall|t: int| 0 <= t < r@.len() ==> r@[t] < arcs@.len(),
{
    let ghost hs = high_stations(arcs@);
    let ghost mm = arcs@[m as int];
    let ghost fp = |o: RatedArc| feeds(arcs@, ids_view(ids@), mm, o);
    let mut out: Vec<usize> = Vec::new();
    let mut t: usize = 0;
    assert(hs.take(0).filter(fp) =~= Seq::<RatedArc>::empty()) by {
        reveal(Seq::filter);
    }
    while t < hi.len()
        invariant
            hs == high_stations(arcs@),
            at_indices(arcs@, hi@) == hs,
            forall|q: int| 0 <= q < hi@.len() ==> hi@[q] < arcs@.len(),
            m < arcs@.len(),
            mm == arcs@[m as int],
            fp == (|o: RatedArc| feeds(arcs@, ids_view(ids@), mm, o)),
            t <= hi@.len(),
            at_indices(arcs@, out@) == hs.take(t as int).filter(fp),
            forall|q: int| 0 <= q < out@.len() ==> out@[q] < arcs@.len(),
        decreases hi@.len() - t,
    {
        let o = hi[t];
        proof {
            assert(hs[t as int] == arcs@[o as int]);
            assert(hs.take(t + 1).drop_last() =~= hs.take(t as int));
            assert(hs.take(t + 1).last() == hs[t as int]);
            reveal(Seq::filter);
        }
        let other = &arcs[o];
        let main = &arcs[m];
        if !crate::text::str_eq(other.arc.id.as_str(), main.arc.id.as_str())
            && reaches_merge_inlet(arcs, ids, &other.arc.to, &main.arc.from) {
            let ghost before = out@;
            out.push(o);
            assert(at_indices(arcs@, out@) =~= at_indices(arcs@, before).push(arcs@[o as int]));
        }
        t = t + 1;
    }
    assert(hs.take(hi@.len() as int) =~= hs);
    out
}

/// The hub mergers (`hub_ids`) and the feeders of each (`branch_entries`).
pub fn classify_compressor_flow_roles(arcs: &Vec<RatedArc>, node_ids: &Vec<String>) -> (r: CompressorFlowRoles)
    ensures
        ids_view(r.hub_mergers@) == hub_ids(arcs@, ids_view(node_ids@)),
        branch_view(r.branch_to_merger@) == branch_entries(arcs@, ids_view(node_ids@)),
{
    let ghost ids = ids_view(node_ids@);
    let ghost hs = high_stations(arcs@);
    let ghost hp = |m: RatedArc| feeders(arcs@, ids, m).len() >= 2;
    let hi = high_station_indices(arcs);
    let mut hubs: Vec<String> = Vec::new();
    let mut t: usize = 0;
    assert(hs.take(0).filter(hp) =~= Seq::<RatedArc>::empty()) by {
        reveal(Seq::filter);
    }
    while t < hi.len()
        invariant
            ids == ids_view(node_ids@),
            hs == high_stations(arcs@),
            hp == (|m: RatedArc| feeders(arcs@, ids, m).len() >= 2),
            at_indices(arcs@, hi@) == hs,
            forall|q: int| 0 <= q < hi@.len() ==> hi@[q] < arcs@.len(),
            t <= hi@.len(),
            ids_view(hubs@) == hs.take(t as int).filter(hp).map_values(|m: RatedArc| m.arc.id@),
        decreases hi@.len() - t,
    {
        let m = hi[t];
        proof {
            assert(hs[t as int] == arcs@[m as int]);
            assert(hs.take(t + 1).drop_last() =~= hs.take(t as int));
            assert(hs.take(t + 1).last() == hs[t as int]);
            reveal(Seq::filter);
        }
        let f = feeder_indices(arcs, node_ids, &hi, m);
        assert(f@.len() == feeders(arcs@, ids, arcs@[m as int]).len());
        if f.len() >= 2 {
            let ghost before = ids_view(hubs@);
            hubs.push(arcs[m].arc.id.clone());
            assert(ids_view(hubs@) =~= before.push(arcs@[m as int].arc.id@));
            assert(hs.take(t + 1).filter(hp) == hs.take(t as int).filter(hp).push(hs[t as int]));
            assert(hs.take(t + 1).filter(hp).map_values(|m: RatedArc| m.arc.id@) =~= hs.take(t as int).filter(hp).map_values(
                |m: RatedArc| m.arc.id@,
            ).push(arcs@[m as int].arc.id@));
        } else {
            assert(hs.take(t + 1).filter(hp) == hs.take(t as int).filter(hp));
        }
        t = t + 1;
    }
    assert(hs.take(hi@.len() as int) =~= hs);
    let ghost hids = hub_ids(arcs@, ids);
    assert(ids_view(hubs@) == hids);
    let ghost mp = |m: RatedArc| hids.contains(m.arc.id@);
    let mut branch: Vec<(String, (String, usize))> = Vec::new();
    let mut t: usize = 0;
    assert(hs.take(0).filter(mp) =~= Seq::<RatedArc>::empty()) by {
        reveal(Seq::filter);
    }
    assert(branch_view(branch@) =~= entries_of(arcs@, ids, hs.take(0).filter(mp)));
    while t < hi.len()
        invariant
            ids == ids_view(node_ids@),
            hs == high_stations(arcs@),
            hids == hub_ids(arcs@, ids),
            ids_view(hubs@) == hids,
            mp == (|m: RatedArc| hids.contains(m.arc.id@)),
            at_indices(arcs@, hi@) == hs,
            forall|q: int| 0 <= q < hi@.len() ==> hi@[q] < arcs@.len(),
            t <= hi@.len(),
            branch_view(branch@) == entries_of(arcs@, ids, hs.take(t as int).filter(mp)),
        decreases hi@.len() - t,
    {
        let m = hi[t];
        proof {
            assert(hs[t as int] == arcs@[m as int]);
            assert(hs.take(t + 1).drop_last() =~= hs.take(t as int));
            assert(hs.take(t + 1).last() == hs[t as int]);
            reveal(Seq::filter);
        }
        if listed(&hubs, &arcs[m].arc.id) {
            let f = feeder_indices(arcs, node_ids, &hi, m);
            let n: usize = if f.len() > 1 { f.len() } else { 1 };
            let ghost base = branch_view(branch@);
            let ghost me = merger_entries(arcs@, ids, arcs@[m as int]);
            let mut q: usize = 0;
            while q < f.len()
                invariant
                    ids == ids_view(node_ids@),
                    m < arcs@.len(),
                    at_indices(arcs@, f@) == feeders(arcs@, ids, arcs@[m as int]),
                    forall|z: int| 0 <= z < f@.len() ==> f@[z] < arcs@.len(),
                    n == (if f@.len() > 1 { f@.len() as usize } else { 1usize }),
                    me == merger_entries(arcs@, ids, arcs@[m as int]),
                    q <= f@.len(),
                    branch_view(branch@) == base + me.take(q as int),
                decreases f@.len() - q,
            {
                let fi = f[q];
                let ghost before = branch_view(branch@);
                branch.push((arcs[fi].arc.id.clone(), (arcs[m].arc.id.clone(), n)));
                proof {
                    assert(me[q as int] == (arcs@[fi as int].arc.id@, (arcs@[m as int].arc.id@, n)));
                    assert(branch_view(branch@) =~= before.push(me[q as int]));
                    assert(me.take(q + 1) =~= me.take(q as int).push(me[q as int]));
                }
                q = q + 1;
            }
            proof {
                assert(me.take(f@.len() as int) =~= me);
                assert(hs.take(t + 1).filter(mp) == hs.take(t as int).filter(mp).push(hs[t as int]));
                assert(hs.take(t + 1).filter(mp).drop_last() =~= hs.take(t as int).filter(mp));
            }
        } else {
            assert(hs.take(t + 1).filter(mp) == hs.take(t as int).filter(mp));
        }
        t = t + 1;
    }
    assert(hs.take(hi@.len() as int) =~= hs);
    CompressorFlowRoles { hub_mergers: hubs, branch_to_merger: branch }
}

/// `x` is within `k` steps of one of `seeds` along such edges, in either direction.
pub open spec fn near_within(arcs: Seq<RatedArc>, ids: Seq<Seq<char>>, seeds: Seq<Seq<char>>, x: Seq<char>, k: nat) -> bool
    decreases k,
{
    if k == 0 {
        seeds.contains(x)
    } else {
        near_within(arcs, ids, seeds, x, (k - 1) as nat) || exists|j: int|
            0 <= j < arcs.len() && graph_step(ids, #[trigger] arcs[j]) && ((arcs[j].arc.to@ == x && near_within(
                arcs,
                ids,
                seeds,
                arcs[j].arc.from@,
                (k - 1) as nat,
            )) || (arcs[j].arc.from@ == x && near_within(arcs, ids, seeds, arcs[j].arc.to@, (k - 1) as nat)))
    }
}

/// The names of `reached`, with the other ends of the edges that touch one of them.
fn step_either_way(arcs: &Vec<RatedArc>, ids: &Vec<String>, reached: &Vec<String>) -> (r: Vec<String>)
    ensures
        forall|x: Seq<char>| #[trigger] ids_view(r@).contains(x) <==> ids_view(reached@).contains(x) || exists|j: int|
            0 <= j < arcs@.len() && graph_step(ids_view(ids@), #[trigger] arcs@[j]) && ((arcs@[j].arc.to@ == x
                && ids_view(reached@).contains(arcs@[j].arc.from@)) || (arcs@[j].arc.from@ == x && ids_view(
                reached@,
            ).contains(arcs@[j].arc.to@))),
{
    let ghost old_r = ids_view(reached@);
    let mut out: Vec<String> = Vec::new();
    let mut i: usize = 0;
    while i < reached.len()
        invariant
            old_r == ids_view(reached@),
            i <= reached@.len(),
            ids_view(out@) == old_r.take(i as int),
        decreases reached@.len() - i,
    {
        let ghost before = ids_view(out@);
        out.push(reached[i].clone());
        assert(ids_view(out@) =~= before.push(old_r[i as int]));
        assert(old_r.take(i + 1) =~= old_r.take(i as int).push(old_r[i as int]));
        i = i + 1;
    }
    assert(old_r.take(old_r.len() as int) =~= old_r);
    let mut k: usize = 0;
    while k < arcs.len()
        invariant
            old_r == ids_view(reached@),
            k <= arcs@.len(),
            forall|x: Seq<char>| #[trigger] ids_view(out@).contains(x) <==> old_r.contains(x) || exists|j: int|
                0 <= j < k && graph_step(ids_view(ids@), #[trigger] arcs@[j]) && ((arcs@[j].arc.to@ == x && old_r.contains(
                    arcs@[j].arc.from@,
                )) || (arcs@[j].arc.from@ == x && old_r.contains(arcs@[j].arc.to@))),
        decreases arcs@.len() - k,
    {
        let a = &arcs[k];
        let ghost before = ids_view(out@);
        let step = is_graph_step(ids, a);
        let fwd = step && listed(reached, &a.arc.from);
        let bwd = step && listed(reached, &a.arc.to);
        if fwd {
            out.push(a.arc.to.clone());
        }
        let ghost mid = ids_view(out@);
        if bwd {
            out.push(a.arc.from.clone());
        }
        proof {
            assert(fwd ==> mid =~= before.push(a.arc.to@));
            assert(!fwd ==> mid =~= before);
            assert(bwd ==> ids_view(out@) =~= mid.push(a.arc.from@));
            assert(!bwd ==> ids_view(out@) =~= mid);
            assert forall|x: Seq<char>| #[trigger] ids_view(out@).contains(x) <==> old_r.contains(x) || exists|j: int|
                0 <= j < k + 1 && graph_step(ids_view(ids@), #[trigger] arcs@[j]) && ((arcs@[j].arc.to@ == x
                    && old_r.contains(arcs@[j].arc.from@)) || (arcs@[j].arc.from@ == x && old_r.contains(arcs@[j].arc.to@))) by {
                if ids_view(out@).contains(x) {
                    let t = choose|t: int| 0 <= t < ids_view(out@).len() && ids_view(out@)[t] == x;
                    if t < before.len() {
                        assert(before[t] == x);
                    }
                }
                if before.contains(x) {
                    let t = choose|t: int| 0 <= t < before.len() && before[t] == x;
                    assert(ids_view(out@)[t] == x);
                }
                if fwd && x == a.arc.to@ {
                    assert(mid[before.len() as int] == x);
                    assert(ids_view(out@)[before.len() as int] == x);
                }
                if bwd && x == a.arc.from@ {
                    assert(ids_view(out@)[mid.len() as int] == x);
                }
            }
        }
        k = k + 1;
    }
    out
}

/// The nodes within `max_hops - 1` steps of one of `seeds`, either way along the edges that
/// are not compressor stations (none when `max_hops` is 0).
pub fn nodes_within_hops(arcs: &Vec<RatedArc>, node_ids: &Vec<String>, seeds: &Vec<String>, max_hops: usize) -> (r: Vec<String>)
    ensures
        forall|x: Seq<char>| #[trigger] ids_view(r@).contains(x) <==> max_hops > 0 && near_within(
            arcs@,
            ids_view(node_ids@),
            ids_view(seeds@),
            x,
            (max_hops - 1) as nat,
        ),
{
    let ghost ids = ids_view(node_ids@);
    let ghost sv = ids_view(seeds@);
    if max_hops == 0 {
        let r: Vec<String> = Vec::new();
        assert forall|x: Seq<char>| !#[trigger] ids_view(r@).contains(x) by {
        }
        return r;
    }
    let mut reached: Vec<String> = Vec::new();
    let mut i: usize = 0;
    while i < seeds.len()
        invariant
            sv == ids_view(seeds@),
            i <= seeds@.len(),
            ids_view(reached@) == sv.take(i as int),
        decreases seeds@.len() - i,
    {
        let ghost before = ids_view(reached@);
        reached.push(seeds[i].clone());
        assert(ids_view(reached@) =~= before.push(sv[i as int]));
        assert(sv.take(i + 1) =~= sv.take(i as int).push(sv[i as int]));
        i = i + 1;
    }
    assert(sv.take(sv.len() as int) =~= sv);
    let mut k: usize = 0;
    while k + 1 < max_hops
        invariant
            ids == ids_view(node_ids@),
            sv == ids_view(seeds@),
            k < max_hops,
            forall|x: Seq<char>| #[trigger] ids_view(reached@).contains(x) <==> near_within(arcs@, ids, sv, x, k as nat),
        decreases max_hops - k,
    {
        let next = step_either_way(arcs, node_ids, &reached);
        proof {
            assert forall|x: Seq<char>| #[trigger] ids_view(next@).contains(x) <==> near_within(arcs@, ids, sv, x, (k + 1) as nat) by {
                if near_within(arcs@, ids, sv, x, (k + 1) as nat) && !near_within(arcs@, ids, sv, x, k as nat) {
                    let j = choose|j: int|
                        0 <= j < arcs@.len() && graph_step(ids, #[trigger] arcs@[j]) && ((arcs@[j].arc.to@ == x && near_within(
                            arcs@,
                            ids,
                            sv,
                            arcs@[j].arc.from@,
                            k as nat,
                        )) || (arcs@[j].arc.from@ == x && near_within(arcs@, ids, sv, arcs@[j].arc.to@, k as nat)));
                    if arcs@[j].arc.to@ == x && near_within(arcs@, ids, sv, arcs@[j].arc.from@, k as nat) {
                        assert(ids_view(reached@).contains(arcs@[j].arc.from@));
                    } else {
                        assert(ids_view(reached@).contains(arcs@[j].arc.to@));
                    }
                }
            }
        }
        reached = next;
        k = k + 1;
    }
    reached
}

/// The inlets (`from` nodes) of the active high-transport stations that are nodes of the
/// network, in order.
pub open spec fn high_transport_inlets(arcs: Seq<RatedArc>, ids: Seq<Seq<char>>) -> Seq<Seq<char>> {
    high_stations(arcs).filter(|a: RatedArc| known(ids, a.arc.from@)).map_values(|a: RatedArc| a.arc.from@)
}

/// The inlets of the active high-transport stations (see `high_transport_inlets`).
pub fn high_transport_endpoint_nodes(arcs: &Vec<RatedArc>, node_ids: &Vec<String>) -> (r: Vec<String>)
    ensures
        ids_view(r@) == high_transport_inlets(arcs@, ids_view(node_ids@)),
{
    let ghost ids = ids_view(node_ids@);
    let ghost hs = high_stations(arcs@);
    let ghost kp = |a: RatedArc| known(ids, a.arc.from@);
    let hi = high_station_indices(arcs);
    let mut out: Vec<String> = Vec::new();
    let mut t: usize = 0;
    assert(hs.take(0).filter(kp) =~= Seq::<RatedArc>::empty()) by {
        reveal(Seq::filter);
    }
    while t < hi.len()
        invariant
            ids == ids_view(node_ids@),
            hs == high_stations(arcs@),
            kp == (|a: RatedArc| known(ids, a.arc.from@)),
            at_indices(arcs@, hi@) == hs,
            forall|q: int| 0 <= q < hi@.len() ==> hi@[q] < arcs@.len(),
            t <= hi@.len(),
            ids_view(out@) == hs.take(t as int).filter(kp).map_values(|a: RatedArc| a.arc.from@),
        decreases hi@.len() - t,
    {
        let m = hi[t];
        proof {
            assert(hs[t as int] == arcs@[m as int]);
            assert(hs.take(t + 1).drop_last() =~= hs.take(t as int));
            assert(hs.take(t + 1).last() == hs[t as int]);
            reveal(Seq::filter);
        }
        if is_known(node_ids, &arcs[m].arc.from) {
            let ghost before = ids_view(out@);
            out.push(arcs[m].arc.from.clone());
            assert(ids_view(out@) =~= before.push(arcs@[m as int].arc.from@));
            assert(hs.take(t + 1).filter(kp) == hs.take(t as int).filter(kp).push(hs[t as int]));
            assert(hs.take(t + 1).filter(kp).map_values(|a: RatedArc| a.arc.from@) =~= hs.take(t as int).filter(kp).map_values(
                |a: RatedArc| a.arc.from@,
            ).push(arcs@[m as int].arc.from@));
        } else {
            assert(hs.take(t + 1).filter(kp) == hs.take(t as int).filter(kp));
        }
        t = t + 1;
    }
    assert(hs.take(hi@.len() as int) =~= hs);
    out
}

/// An active compressor station of the transport class (not high transport).
pub open spec fn distribution_station(a: RatedArc) -> bool {
    a.arc.kind == ConnectionKind::CompressorStation && spec_hydraulically_active(a.arc) && a.cap == CapClass::Transport
}

/// Number of active transport stations that are not high transport.
pub fn count_distribution_compressors(arcs: &Vec<RatedArc>) -> (r: usize)
    ensures
        r == arcs@.filter(|a: RatedArc| distribution_station(a)).len(),
{
    let ghost dp = |a: RatedArc| distribution_station(a);
    let mut n: usize = 0;
    let mut k: usize = 0;
    assert(arcs@.take(0).filter(dp) =~= Seq::<RatedArc>::empty()) by {
        reveal(Seq::filter);
    }
    while k < arcs.len()
        invariant
            dp == (|a: RatedArc| distribution_station(a)),
            k <= arcs@.len(),
            n == arcs@.take(k as int).filter(dp).len(),
            n <= k,
        decreases arcs@.len() - k,
    {
        let a = &arcs[k];
        proof {
            assert(arcs@.take(k + 1).drop_last() =~= arcs@.take(k as int));
            assert(arcs@.take(k + 1).last() == arcs@[k as int]);
            reveal(Seq::filter);
        }
        if a.arc.kind == ConnectionKind::CompressorStation && hydraulically_active(&a.arc) && a.cap == CapClass::Transport {
            n = n + 1;
        }
        k = k + 1;
    }
    assert(arcs@.take(arcs@.len() as int) =~= arcs@);
    n
}

/// How the map flow of a station is drawn from the total delivery.
#[derive(Debug, Clone, Copy, PartialEq, Eq, Structural)]
pub enum MapFlowShare {
    /// The whole delivery (a hub merger).
    Total,
    /// The delivery divided by this number of parallel stations.
    Split(usize),
    /// A distribution station: its local delivery when the demands give one, else the
    /// delivery divided by this number of distribution stations.
    Distribution(usize),
    /// The delivery divided by the number of active compressors (zero when there is none).
    PerActiveCompressor,
}

/// The value of the last entry for `k`.
pub open spec fn entry_for<V>(es: Seq<(Seq<char>, V)>, k: Seq<char>) -> Option<V>
    decreases es.len(),
{
    if es.len() == 0 {
        None
    } else if es.last().0 == k {
        Some(es.last().1)
    } else {
        entry_for(es.drop_last(), k)
    }
}

/// The share of station `p`: the whole delivery for a hub merger; for a feeder, the
/// delivery split among its merger's feeders; for another high-transport station, split
/// among all active high-transport stations; for a transport station, the distribution
/// rule; for any other, split among the active compressors.
pub open spec fn spec_map_flow_share(arcs: Seq<RatedArc>, ids: Seq<Seq<char>>, p: RatedArc) -> MapFlowShare {
    if hub_ids(arcs, ids).contains(p.arc.id@) {
        MapFlowShare::Total
    } else if entry_for(branch_entries(arcs, ids), p.arc.id@) is Some {
        MapFlowShare::Split((entry_for(branch_entries(arcs, ids), p.arc.id@)->0).1)
    } else if p.cap == CapClass::HighTransport {
        MapFlowShare::Split(if high_stations(arcs).len() > 1 { high_stations(arcs).len() as usize } else { 1 })
    } else if p.cap == CapClass::Transport {
        let n = arcs.filter(|a: RatedArc| distribution_station(a)).len();
        MapFlowShare::Distribution(if n > 1 { n as usize } else { 1 })
    } else {
        MapFlowShare::PerActiveCompressor
    }
}

fn last_entry(es: &Vec<(String, (String, usize))>, k: &String) -> (r: Option<usize>)
    ensures
        match r {
            Some(n) => entry_for(branch_view(es@), k@) matches Some(v) && v.1 == n,
            None => entry_for(branch_view(es@), k@) is None,
        },
{
    let ghost bv = branch_view(es@);
    let mut i = es.len();
    assert(bv.take(i as int) =~= bv);
    while i > 0
        invariant
            bv == branch_view(es@),
            i <= es@.len(),
            entry_for(bv, k@) == entry_for(bv.take(i as int), k@),
        decreases i,
    {
        assert(bv.take(i as int).last() == bv[i - 1]);
        assert(bv.take(i as int).drop_last() =~= bv.take(i - 1));
        if crate::text::str_eq(es[i - 1].0.as_str(), k.as_str()) {
            return Some(es[i - 1].1.1);
        }
        i = i - 1;
    }
    None
}

/// How the map flow of station `pipe` is drawn from the total delivery (see
/// `spec_map_flow_share`).
pub fn map_flow_share(arcs: &Vec<RatedArc>, node_ids: &Vec<String>, pipe: &RatedArc) -> (r: MapFlowShare)
    ensures
        r == spec_map_flow_share(arcs@, ids_view(node_ids@), *pipe),
{
    let roles = classify_compressor_flow_roles(arcs, node_ids);
    if listed(&roles.hub_mergers, &pipe.arc.id) {
        return MapFlowShare::Total;
    }
    match last_entry(&roles.branch_to_merger, &pipe.arc.id) {
        Some(n) => return MapFlowShare::Split(n),
        None => {},
    }
    if pipe.cap == CapClass::HighTransport {
        let hi = high_station_indices(arcs);
        assert(hi@.len() == high_stations(arcs@).len());
        return MapFlowShare::Split(if hi.len() > 1 { hi.len() } else { 1 });
    }
    if pipe.cap == CapClass::Transport {
        let n = count_distribution_compressors(arcs);
        return MapFlowShare::Distribution(if n > 1 { n } else { 1 });
    }
    MapFlowShare::PerActiveCompressor
}

/// Hops around a distribution station within which its local delivery is summed.
pub const DISTRIBUTION_LOCAL_HOPS: usize = 6;

/// Hops around the high-transport inlets that the local delivery leaves out.
pub const DISTRIBUTION_EXCLUSION_HOPS: usize = 4;

/// The nodes whose delivery a distribution station `p` carries: those near its two ends
/// (within `DISTRIBUTION_LOCAL_HOPS - 1` steps) and not near a high-transport inlet
/// (within `DISTRIBUTION_EXCLUSION_HOPS - 1` steps); none when an end is not a node.
pub open spec fn delivery_zone(arcs: Seq<RatedArc>, ids: Seq<Seq<char>>, p: RatedArc) -> Set<Seq<char>> {
    if known(ids, p.arc.from@) && known(ids, p.arc.to@) {
        Set::new(
            |x: Seq<char>|
                near_within(arcs, ids, seq![p.arc.from@, p.arc.to@], x, (DISTRIBUTION_LOCAL_HOPS - 1) as nat)
                    && !near_within(arcs, ids, high_transport_inlets(arcs, ids), x, (DISTRIBUTION_EXCLUSION_HOPS - 1) as nat),
        )
    } else {
        Set::empty()
    }
}

/// The nodes whose delivery a distribution station carries (see `delivery_zone`), each
/// once.
pub fn subtree_delivery_nodes(arcs: &Vec<RatedArc>, node_ids: &Vec<String>, pipe: &RatedArc) -> (r: Vec<String>)
    ensures
        ids_view(r@).to_set() == delivery_zone(arcs@, ids_view(node_ids@), *pipe),
        ids_view(r@).no_duplicates(),
{
    let ghost ids = ids_view(node_ids@);
    let mut out: Vec<String> = Vec::new();
    if !is_known(node_ids, &pipe.arc.from) || !is_known(node_ids, &pipe.arc.to) {
        assert(ids_view(out@).to_set() =~= delivery_zone(arcs@, ids, *pipe));
        return out;
    }
    let mut seeds: Vec<String> = Vec::new();
    seeds.push(pipe.arc.from.clone());
    seeds.push(pipe.arc.to.clone());
    assert(ids_view(seeds@) =~= seq![pipe.arc.from@, pipe.arc.to@]);
    let local = nodes_within_hops(arcs, node_ids, &seeds, DISTRIBUTION_LOCAL_HOPS);
    let inlets = high_transport_endpoint_nodes(arcs, node_ids);
    let excluded = nodes_within_hops(arcs, node_ids, &inlets, DISTRIBUTION_EXCLUSION_HOPS);
    let ghost zone = delivery_zone(arcs@, ids, *pipe);
    let mut i: usize = 0;
    while i < local.len()
        invariant
            ids == ids_view(node_ids@),
            zone == delivery_zone(arcs@, ids, *pipe),
            known(ids, pipe.arc.from@) && known(ids, pipe.arc.to@),
            forall|x: Seq<char>| #[trigger] ids_view(local@).contains(x) <==> near_within(
                arcs@,
                ids,
                seq![pipe.arc.from@, pipe.arc.to@],
                x,
                (DISTRIBUTION_LOCAL_HOPS - 1) as nat,
            ),
            forall|x: Seq<char>| #[trigger] ids_view(excluded@).contains(x) <==> near_within(
                arcs@,
                ids,
                high_transport_inlets(arcs@, ids),
                x,
                (DISTRIBUTION_EXCLUSION_HOPS - 1) as nat,
            ),
            i <= local@.len(),
            ids_view(out@).no_duplicates(),
            forall|x: Seq<char>| #[trigger] ids_view(out@).contains(x) <==> ids_view(local@).take(i as int).contains(x)
                && !ids_view(excluded@).contains(x),
        decreases local@.len() - i,
    {
        let x = &local[i];
        let ghost before = ids_view(out@);
        proof {
            assert(ids_view(local@).take(i + 1) =~= ids_view(local@).take(i as int).push(x@));
        }
        if !listed(&excluded, x) && !listed(&out, x) {
            out.push(x.clone());
            proof {
                assert(ids_view(out@) =~= before.push(x@));
                assert forall|a: int, b: int| 0 <= a < b < ids_view(out@).len() implies ids_view(out@)[a] != ids_view(out@)[b] by {
                    if b == before.len() {
                        assert(before.contains(before[a]));
                    }
                }
            }
        }
        proof {
            assert forall|y: Seq<char>| #[trigger] ids_view(out@).contains(y) <==> ids_view(local@).take(i + 1).contains(y)
                && !ids_view(excluded@).contains(y) by {
                crate::anchors::lemma_concat_contains(ids_view(local@).take(i as int), seq![x@], y);
                assert(ids_view(local@).take(i as int).push(x@) =~= ids_view(local@).take(i as int) + seq![x@]);
                crate::anchors::lemma_concat_contains(before, seq![x@], y);
                if ids_view(out@) != before {
                    assert(before.push(x@) =~= before + seq![x@]);
                }
                if seq![x@].contains(y) {
                    assert(seq![x@][0] == x@);
                }
                if y == x@ {
                    assert(seq![x@][0] == y);
                }
            }
        }
        i = i + 1;
    }
    proof {
        assert(ids_view(local@).take(local@.len() as int) =~= ids_view(local@));
        assert(ids_view(out@).to_set() =~= zone);
    }
    out
}

/// The neighbours of node `x` across the edges that are not compressor stations, once per
/// edge: the downstream ends of the edges leaving it, then the upstream ends of those
/// entering it, each in arc order; none when `x` is not a node.
pub open spec fn neighbours_of(arcs: Seq<RatedArc>, ids: Seq<Seq<char>>, x: Seq<char>) -> Seq<Seq<char>> {
    if known(ids, x) {
        arcs.filter(|a: RatedArc| graph_step(ids, a) && a.arc.from@ == x).map_values(|a: RatedArc| a.arc.to@) + arcs.filter(
            |a: RatedArc| graph_step(ids, a) && a.arc.to@ == x,
        ).map_values(|a: RatedArc| a.arc.from@)
    } else {
        Seq::empty()
    }
}

fn collect_ends(arcs: &Vec<RatedArc>, ids: &Vec<String>, x: &String, out: &mut Vec<String>, leaving: bool)
    ensures
        leaving ==> ids_view(final(out)@) == ids_view(old(out)@) + arcs@.filter(
            |a: RatedArc| graph_step(ids_view(ids@), a) && a.arc.from@ == x@,
        ).map_values(|a: RatedArc| a.arc.to@),
        !leaving ==> ids_view(final(out)@) == ids_view(old(out)@) + arcs@.filter(
            |a: RatedArc| graph_step(ids_view(ids@), a) && a.arc.to@ == x@,
        ).map_values(|a: RatedArc| a.arc.from@),
{
    let ghost start = ids_view(out@);
    let ghost p = if leaving {
        |a: RatedArc| graph_step(ids_view(ids@), a) && a.arc.from@ == x@
    } else {
        |a: RatedArc| graph_step(ids_view(ids@), a) && a.arc.to@ == x@
    };
    let ghost other = if leaving {
        |a: RatedArc| a.arc.to@
    } else {
        |a: RatedArc| a.arc.from@
    };
    let mut k: usize = 0;
    assert(arcs@.take(0).filter(p) =~= Seq::<RatedArc>::empty()) by {
        reveal(Seq::filter);
    }
    assert(start + arcs@.take(0).filter(p).map_values(other) =~= start);
    while k < arcs.len()
        invariant
            p == (if leaving {
                |a: RatedArc| graph_step(ids_view(ids@), a) && a.arc.from@ == x@
            } else {
                |a: RatedArc| graph_step(ids_view(ids@), a) && a.arc.to@ == x@
            }),
            other == (if leaving {
                |a: RatedArc| a.arc.to@
            } else {
                |a: RatedArc| a.arc.from@
            }),
            k <= arcs@.len(),
            ids_view(out@) == start + arcs@.take(k as int).filter(p).map_values(other),
        decreases arcs@.len() - k,
    {
        let a = &arcs[k];
        proof {
            assert(arcs@.take(k + 1).drop_last() =~= arcs@.take(k as int));
            assert(arcs@.take(k + 1).last() == arcs@[k as int]);
            reveal(Seq::filter);
        }
        let end_here = if leaving {
            crate::text::str_eq(a.arc.from.as_str(), x.as_str())
        } else {
            crate::text::str_eq(a.arc.to.as_str(), x.as_str())
        };
        if is_graph_step(ids, a) && end_here {
            let ghost before = ids_view(out@);
            let y = if leaving { a.arc.to.clone() } else { a.arc.from.clone() };
            out.push(y);
            proof {
                assert(ids_view(out@) =~= before.push(other(arcs@[k as int])));
                assert(arcs@.take(k + 1).filter(p) == arcs@.take(k as int).filter(p).push(arcs@[k as int]));
                assert(arcs@.take(k + 1).filter(p).map_values(other) =~= arcs@.take(k as int).filter(p).map_values(other).push(
                    other(arcs@[k as int]),
                ));
            }
        } else {
            assert(arcs@.take(k + 1).filter(p) == arcs@.take(k as int).filter(p));
        }
        k = k + 1;
    }
    assert(arcs@.take(arcs@.len() as int) =~= arcs@);
}

/// The neighbours of both ends of `pipe` (see `neighbours_of`), the inlet's first.
pub fn adjacent_nodes(arcs: &Vec<RatedArc>, node_ids: &Vec<String>, pipe: &RatedArc) -> (r: Vec<String>)
    ensures
        ids_view(r@) == neighbours_of(arcs@, ids_view(node_ids@), pipe.arc.from@) + neighbours_of(
            arcs@,
            ids_view(node_ids@),
            pipe.arc.to@,
        ),
{
    let ghost ids = ids_view(node_ids@);
    let mut out: Vec<String> = Vec::new();
    if is_known(node_ids, &pipe.arc.from) {
        collect_ends(arcs, node_ids, &pipe.arc.from, &mut out, true);
        collect_ends(arcs, node_ids, &pipe.arc.from, &mut out, false);
    }
    let ghost mid = ids_view(out@);
    assert(mid =~= neighbours_of(arcs@, ids, pipe.arc.from@));
    if is_known(node_ids, &pipe.arc.to) {
        collect_ends(arcs, node_ids, &pipe.arc.to, &mut out, true);
        collect_ends(arcs, node_ids, &pipe.arc.to, &mut out, false);
    }
    assert(ids_view(out@) =~= mid + neighbours_of(arcs@, ids, pipe.arc.to@));
    out
}

/// The other distribution stations than `pipe` (by identifier), as positions in `arcs`.
pub fn distribution_peers(arcs: &Vec<RatedArc>, pipe: &RatedArc) -> (r: Vec<usize>)
    ensures
        at_indices(arcs@, r@) == arcs@.filter(|a: RatedArc| distribution_station(a) && a.arc.id@ != pipe.arc.id@),
        forall|t: int| 0 <= t < r@.len() ==> r@[t] < arcs@.len(),
{
    let ghost dp = |a: RatedArc| distribution_station(a) && a.arc.id@ != pipe.arc.id@;
    let mut out: Vec<usize> = Vec::new();
    let mut k: usize = 0;
    assert(arcs@.take(0).filter(dp) =~= Seq::<RatedArc>::empty()) by {
        reveal(Seq::filter);
    }
    while k < arcs.len()
        invariant
            dp == (|a: RatedArc| distribution_station(a) && a.arc.id@ != pipe.arc.id@),
            k <= arcs@.len(),
            at_indices(arcs@, out@) == arcs@.take(k as int).filter(dp),
            forall|t: int| 0 <= t < out@.len() ==> out@[t] < arcs@.len(),
        decreases arcs@.len() - k,
    {
        let a = &arcs[k];
        proof {
            assert(arcs@.take(k + 1).drop_last() =~= arcs@.take(k as int));
            assert(arcs@.take(k + 1).last() == arcs@[k as int]);
            reveal(Seq::filter);
        }
        if a.arc.kind == ConnectionKind::CompressorStation && hydraulically_active(&a.arc) && a.cap == CapClass::Transport
            && !crate::text::str_eq(a.arc.id.as_str(), pipe.arc.id.as_str()) {
            let ghost before = out@;
            out.push(k);
            assert(at_indices(arcs@, out@) =~= at_indices(arcs@, before).push(arcs@[k as int]));
        }
        k = k + 1;
    }
    assert(arcs@.take(arcs@.len() as int) =~= arcs@);
    out
}

/// An edge the search for bounded sinks follows: an active pipe, short pipe, valve,
/// resistor or control valve between two nodes of the network.
pub open spec fn decision_step(ids: Seq<Seq<char>>, a: RatedArc) -> bool {
    &&& spec_hydraulically_active(a.arc)
    &&& (a.arc.kind == ConnectionKind::Pipe || a.arc.kind == ConnectionKind::ShortPipe || a.arc.kind == ConnectionKind::Valve
        || a.arc.kind == ConnectionKind::Resistor || a.arc.kind == ConnectionKind::ControlValve)
    &&& known(ids, a.arc.from@)
    &&& known(ids, a.arc.to@)
}

/// `x` is within `k` steps of `s`, either way along such edges.
pub open spec fn decision_within(arcs: Seq<RatedArc>, ids: Seq<Seq<char>>, s: Seq<char>, x: Seq<char>, k: nat) -> bool
    decreases k,
{
    if k == 0 {
        x == s
    } else {
        decision_within(arcs, ids, s, x, (k - 1) as nat) || exists|j: int|
            0 <= j < arcs.len() && decision_step(ids, #[trigger] arcs[j]) && ((arcs[j].arc.to@ == x && decision_within(
                arcs,
                ids,
                s,
                arcs[j].arc.from@,
                (k - 1) as nat,
            )) || (arcs[j].arc.from@ == x && decision_within(arcs, ids, s, arcs[j].arc.to@, (k - 1) as nat)))
    }
}

/// `x` is joined to `s` along such edges.
pub open spec fn decision_reach(arcs: Seq<RatedArc>, ids: Seq<Seq<char>>, s: Seq<char>, x: Seq<char>) -> bool {
    exists|k: nat| #[trigger] decision_within(arcs, ids, s, x, k)
}

proof fn lemma_within_grows(arcs: Seq<RatedArc>, ids: Seq<Seq<char>>, s: Seq<char>, x: Seq<char>, k: nat, m: nat)
    requires
        k <= m,
        decision_within(arcs, ids, s, x, k),
    ensures
        decision_within(arcs, ids, s, x, m),
    decreases m - k,
{
    if k < m {
        lemma_within_grows(arcs, ids, s, x, k, (m - 1) as nat);
    }
}

proof fn lemma_within_settles(arcs: Seq<RatedArc>, ids: Seq<Seq<char>>, s: Seq<char>, k: nat, m: nat)
    requires
        k <= m,
        forall|x: Seq<char>| #[trigger] decision_within(arcs, ids, s, x, k + 1) == decision_within(arcs, ids, s, x, k),
    ensures
        forall|x: Seq<char>| #[trigger] decision_within(arcs, ids, s, x, m) == decision_within(arcs, ids, s, x, k),
    decreases m - k,
{
    if k < m {
        lemma_within_settles(arcs, ids, s, k, (m - 1) as nat);
        assert forall|x: Seq<char>| #[trigger] decision_within(arcs, ids, s, x, m) == decision_within(arcs, ids, s, x, k) by {
            let m1 = (m - 1) as nat;
            assert(decision_within(arcs, ids, s, x, m1) == decision_within(arcs, ids, s, x, k));
            if decision_within(arcs, ids, s, x, m) && !decision_within(arcs, ids, s, x, m1) {
                let j = choose|j: int|
                    0 <= j < arcs.len() && decision_step(ids, #[trigger] arcs[j]) && ((arcs[j].arc.to@ == x && decision_within(
                        arcs,
                        ids,
                        s,
                        arcs[j].arc.from@,
                        m1,
                    )) || (arcs[j].arc.from@ == x && decision_within(arcs, ids, s, arcs[j].arc.to@, m1)));
                let y_from = arcs[j].arc.from@;
                let y_to = arcs[j].arc.to@;
                assert(decision_within(arcs, ids, s, y_from, m1) == decision_within(arcs, ids, s, y_from, k));
                assert(decision_within(arcs, ids, s, y_to, m1) == decision_within(arcs, ids, s, y_to, k));
                assert(decision_within(arcs, ids, s, x, k + 1));
                assert(decision_within(arcs, ids, s, x, k));
            }
            if decision_within(arcs, ids, s, x, k) {
                assert(decision_within(arcs, ids, s, x, m1));
            }
        }
    }
}

/// The names a search from `s` can meet: `s` and the ends of the arcs.
pub open spec fn search_names(arcs: Seq<RatedArc>, s: Seq<char>) -> Set<Seq<char>> {
    Set::new(|x: Seq<char>| x == s || exists|j: int| 0 <= j < arcs.len() && (#[trigger] arcs[j].arc.from@ == x || arcs[j].arc.to@ == x))
}

proof fn lemma_within_names(arcs: Seq<RatedArc>, ids: Seq<Seq<char>>, s: Seq<char>, x: Seq<char>, k: nat)
    requires
        decision_within(arcs, ids, s, x, k),
    ensures
        search_names(arcs, s).contains(x),
    decreases k,
{
    if k > 0 && !decision_within(arcs, ids, s, x, (k - 1) as nat) {
        let j = choose|j: int|
            0 <= j < arcs.len() && decision_step(ids, #[trigger] arcs[j]) && ((arcs[j].arc.to@ == x && decision_within(
                arcs,
                ids,
                s,
                arcs[j].arc.from@,
                (k - 1) as nat,
            )) || (arcs[j].arc.from@ == x && decision_within(arcs, ids, s, arcs[j].arc.to@, (k - 1) as nat)));
        assert(arcs[j].arc.from@ == x || arcs[j].arc.to@ == x);
    } else if k > 0 {
        lemma_within_names(arcs, ids, s, x, (k - 1) as nat);
    }
}

fn is_decision_step(ids: &Vec<String>, a: &RatedArc) -> (r: bool)
    ensures
        r == decision_step(ids_view(ids@), *a),
{
    hydraulically_active(&a.arc) && (a.arc.kind == ConnectionKind::Pipe || a.arc.kind == ConnectionKind::ShortPipe
        || a.arc.kind == ConnectionKind::Valve || a.arc.kind == ConnectionKind::Resistor || a.arc.kind
        == ConnectionKind::ControlValve) && is_known(ids, &a.arc.from) && is_known(ids, &a.arc.to)
}

/// One more step of the search: `reached`, with the names one decision step away, each
/// name once.
fn decision_round(arcs: &Vec<RatedArc>, ids: &Vec<String>, reached: &mut Vec<String>)
    requires
        ids_view(old(reached)@).no_duplicates(),
    ensures
        ids_view(final(reached)@).no_duplicates(),
        ids_view(old(reached)@).len() <= ids_view(final(reached)@).len(),
        forall|x: Seq<char>| #[trigger] ids_view(old(reached)@).contains(x) ==> ids_view(final(reached)@).contains(x),
        forall|x: Seq<char>| #[trigger] ids_view(final(reached)@).contains(x) <==> ids_view(old(reached)@).contains(x) || exists|j: int|
            0 <= j < arcs@.len() && decision_step(ids_view(ids@), #[trigger] arcs@[j]) && ((arcs@[j].arc.to@ == x
                && ids_view(old(reached)@).contains(arcs@[j].arc.from@)) || (arcs@[j].arc.from@ == x && ids_view(
                old(reached)@,
            ).contains(arcs@[j].arc.to@))),
{
    let ghost old_r = ids_view(reached@);
    let mut snapshot: Vec<String> = Vec::new();
    let mut i: usize = 0;
    while i < reached.len()
        invariant
            old_r == ids_view(reached@),
            i <= reached@.len(),
            ids_view(snapshot@) == old_r.take(i as int),
        decreases reached@.len() - i,
    {
        let ghost before = ids_view(snapshot@);
        snapshot.push(reached[i].clone());
        assert(ids_view(snapshot@) =~= before.push(old_r[i as int]));
        assert(old_r.take(i + 1) =~= old_r.take(i as int).push(old_r[i as int]));
        i = i + 1;
    }
    assert(old_r.take(old_r.len() as int) =~= old_r);
    let mut k: usize = 0;
    while k < arcs.len()
        invariant
            ids_view(snapshot@) == old_r,
            old_r.no_duplicates(),
            k <= arcs@.len(),
            ids_view(reached@).no_duplicates(),
            old_r.len() <= ids_view(reached@).len(),
            forall|x: Seq<char>| #[trigger] old_r.contains(x) ==> ids_view(reached@).contains(x),
            forall|x: Seq<char>| #[trigger] ids_view(reached@).contains(x) <==> old_r.contains(x) || exists|j: int|
                0 <= j < k && decision_step(ids_view(ids@), #[trigger] arcs@[j]) && ((arcs@[j].arc.to@ == x && old_r.contains(
                    arcs@[j].arc.from@,
                )) || (arcs@[j].arc.from@ == x && old_r.contains(arcs@[j].arc.to@))),
        decreases arcs@.len() - k,
    {
        let a = &arcs[k];
        let step = is_decision_step(ids, a);
        let fwd = step && listed(&snapshot, &a.arc.from);
        let bwd = step && listed(&snapshot, &a.arc.to);
        let ghost before = ids_view(reached@);
        if fwd && !listed(reached, &a.arc.to) {
            reached.push(a.arc.to.clone());
            proof {
                assert(ids_view(reached@) =~= before.push(a.arc.to@));
                assert forall|p: int, q: int| 0 <= p < q < ids_view(reached@).len() implies ids_view(reached@)[p] != ids_view(reached@)[q] by {
                    if q == before.len() {
                        assert(before.contains(before[p]));
                    }
                }
            }
        }
        let ghost mid = ids_view(reached@);
        if bwd && !listed(reached, &a.arc.from) {
            reached.push(a.arc.from.clone());
            proof {
                assert(ids_view(reached@) =~= mid.push(a.arc.from@));
                assert forall|p: int, q: int| 0 <= p < q < ids_view(reached@).len() implies ids_view(reached@)[p] != ids_view(reached@)[q] by {
                    if q == mid.len() {
                        assert(mid.contains(mid[p]));
                    }
                }
            }
        }
        proof {
            assert forall|x: Seq<char>| #[trigger] mid.contains(x) <==> before.contains(x) || (fwd && x == a.arc.to@) by {
                if mid != before {
                    crate::anchors::lemma_concat_contains(before, seq![a.arc.to@], x);
                    assert(before.push(a.arc.to@) =~= before + seq![a.arc.to@]);
                    if x == a.arc.to@ {
                        assert(seq![a.arc.to@][0] == x);
                    }
                    if seq![a.arc.to@].contains(x) {
                        assert(seq![a.arc.to@][0] == x);
                    }
                }
            }
            assert forall|x: Seq<char>| #[trigger] ids_view(reached@).contains(x) <==> mid.contains(x) || (bwd && x == a.arc.from@) by {
                if ids_view(reached@) != mid {
                    crate::anchors::lemma_concat_contains(mid, seq![a.arc.from@], x);
                    assert(mid.push(a.arc.from@) =~= mid + seq![a.arc.from@]);
                    if x == a.arc.from@ {
                        assert(seq![a.arc.from@][0] == x);
                    }
                    if seq![a.arc.from@].contains(x) {
                        assert(seq![a.arc.from@][0] == x);
                    }
                }
            }
        }
        k = k + 1;
    }
}

/// A node as the search for bounded sinks sees it: whether the scenario gives it a
/// pressure envelope, and its lower pressure bound.
pub struct EnvelopeNode<P> {
    pub id: String,
    pub in_envelope: bool,
    pub lower_bar: Option<P>,
}

pub type EnvelopeView<P> = (Seq<char>, bool, Option<P>);

pub open spec fn envelope_views<P>(v: Seq<EnvelopeNode<P>>) -> Seq<EnvelopeView<P>> {
    v.map_values(|n: EnvelopeNode<P>| (n.id@, n.in_envelope, n.lower_bar))
}

/// The envelope flag and lower bound of the last node named `x` (the one a lookup by name
/// finds).
pub open spec fn envelope_of<P>(ns: Seq<EnvelopeView<P>>, x: Seq<char>) -> Option<(bool, Option<P>)>
    decreases ns.len(),
{
    if ns.len() == 0 {
        None
    } else if ns.last().0 == x {
        Some((ns.last().1, ns.last().2))
    } else {
        envelope_of(ns.drop_last(), x)
    }
}

/// `x` is a bounded sink that the search from `s` meets, with lower bound `p`: a node
/// joined to `s`, named `sink_*`, with a scenario envelope and that lower bound.
pub open spec fn bounded_sink<P>(arcs: Seq<RatedArc>, ns: Seq<EnvelopeView<P>>, s: Seq<char>, x: Seq<char>, p: P) -> bool {
    let ids = ns.map_values(|n: EnvelopeView<P>| n.0);
    &&& known(ids, s)
    &&& decision_reach(arcs, ids, s, x)
    &&& has_prefix(x, "sink_"@)
    &&& envelope_of(ns, x) == Some((true, Some(p)))
}

fn envelope_lookup<P: Copy>(nodes: &Vec<EnvelopeNode<P>>, x: &String) -> (r: Option<(bool, Option<P>)>)
    ensures
        r == envelope_of(envelope_views(nodes@), x@),
{
    let ghost nv = envelope_views(nodes@);
    let mut i = nodes.len();
    assert(nv.take(i as int) =~= nv);
    while i > 0
        invariant
            nv == envelope_views(nodes@),
            i <= nodes@.len(),
            envelope_of(nv, x@) == envelope_of(nv.take(i as int), x@),
        decreases i,
    {
        assert(nv.take(i as int).last() == nv[i - 1]);
        assert(nv.take(i as int).drop_last() =~= nv.take(i - 1));
        if crate::text::str_eq(nodes[i - 1].id.as_str(), x.as_str()) {
            return Some((nodes[i - 1].in_envelope, nodes[i - 1].lower_bar));
        }
        i = i - 1;
    }
    None
}

/// Puts `(x, p)` at its place in `v`, ordered by name.
fn insert_by_name<P>(v: &mut Vec<(String, P)>, x: String, p: P)
    requires
        forall|i: int, j: int| 0 <= i < j < old(v)@.len() ==> seq_less(old(v)@[i].0@, old(v)@[j].0@),
        forall|i: int| 0 <= i < old(v)@.len() ==> old(v)@[i].0@ != x@,
    ensures
        forall|i: int, j: int| 0 <= i < j < final(v)@.len() ==> seq_less(final(v)@[i].0@, final(v)@[j].0@),
        final(v)@.map_values(|e: (String, P)| (e.0@, e.1)).to_multiset() == old(v)@.map_values(|e: (String, P)| (e.0@, e.1)).to_multiset().insert(
            (x@, p),
        ),
{
    broadcast use vstd::seq_lib::group_to_multiset_ensures;
    let ghost start = v@;
    let mut pos: usize = 0;
    while pos < v.len() && str_less(v[pos].0.as_str(), x.as_str())
        invariant
            v@ == start,
            pos <= v@.len(),
            forall|i: int| 0 <= i < pos ==> seq_less(v@[i].0@, x@),
        decreases v@.len() - pos,
    {
        pos = pos + 1;
    }
    proof {
        if pos < v@.len() {
            lemma_seq_less_total(v@[pos as int].0@, x@);
            assert(seq_less(x@, v@[pos as int].0@));
            assert forall|i: int| pos <= i < v@.len() implies seq_less(x@, #[trigger] v@[i].0@) by {
                if i > pos {
                    lemma_seq_less_transitive(x@, v@[pos as int].0@, v@[i].0@);
                }
            }
        }
    }
    let ghost sv = start.map_values(|e: (String, P)| (e.0@, e.1));
    v.insert(pos, (x, p));
    proof {
        let nv = v@.map_values(|e: (String, P)| (e.0@, e.1));
        assert(nv =~= sv.insert(pos as int, (x@, p)));
        assert(sv.insert(pos as int, (x@, p)).to_multiset() =~= sv.to_multiset().insert((x@, p)));
        assert forall|i: int, j: int| 0 <= i < j < v@.len() implies seq_less(v@[i].0@, v@[j].0@) by {
            if j < pos {
                assert(v@[i] == start[i] && v@[j] == start[j]);
            } else if j == pos {
                assert(v@[i] == start[i]);
            } else if i < pos {
                assert(v@[i] == start[i] && v@[j] == start[j - 1]);
                lemma_seq_less_transitive(start[i].0@, x@, start[j - 1].0@);
            } else if i == pos {
                assert(v@[j] == start[j - 1]);
            } else {
                assert(v@[i] == start[i - 1] && v@[j] == start[j - 1]);
            }
        }
    }
}

/// A round that adds no name leaves the set of names unchanged.
proof fn lemma_same_names(before: Seq<Seq<char>>, after: Seq<Seq<char>>, x: Seq<char>)
    requires
        before.no_duplicates(),
        after.no_duplicates(),
        before.len() == after.len(),
        forall|y: Seq<char>| #[trigger] before.contains(y) ==> after.contains(y),
        after.contains(x),
    ensures
        before.contains(x),
{
    if !before.contains(x) {
        before.unique_seq_to_set();
        after.unique_seq_to_set();
        assert(before.to_set().subset_of(after.to_set().remove(x)));
        vstd::set_lib::lemma_len_subset(before.to_set(), after.to_set().remove(x));
        assert(after.to_set().contains(x));
    }
}

/// The bounded sinks downstream of a compressor outlet `cs_from_node`: the nodes named
/// `sink_*` with a scenario envelope and a lower pressure bound that a search meets along
/// active pipes, short pipes, valves, resistors and control valves (never across a
/// compressor), each once with that bound, ordered by name; none when `cs_from_node` is
/// not a node.
pub fn downstream_bounded_sinks<P: Copy>(arcs: &Vec<RatedArc>, nodes: &Vec<EnvelopeNode<P>>, cs_from_node: &String) -> (r: Vec<(String, P)>)
    ensures
        forall|i: int, j: int| 0 <= i < j < r@.len() ==> seq_less(r@[i].0@, r@[j].0@),
        forall|x: Seq<char>, p: P| r@.map_values(|e: (String, P)| (e.0@, e.1)).contains((x, p)) <==> bounded_sink(
            arcs@,
            envelope_views(nodes@),
            cs_from_node@,
            x,
            p,
        ),
{
    broadcast use vstd::seq_lib::group_to_multiset_ensures;
    let ghost nv = envelope_views(nodes@);
    let mut node_ids: Vec<String> = Vec::new();
    let mut i: usize = 0;
    while i < nodes.len()
        invariant
            nv == envelope_views(nodes@),
            i <= nodes@.len(),
            ids_view(node_ids@) == nv.take(i as int).map_values(|n: EnvelopeView<P>| n.0),
        decreases nodes@.len() - i,
    {
        let ghost before = ids_view(node_ids@);
        node_ids.push(nodes[i].id.clone());
        assert(ids_view(node_ids@) =~= before.push(nv[i as int].0));
        assert(nv.take(i + 1).map_values(|n: EnvelopeView<P>| n.0) =~= nv.take(i as int).map_values(|n: EnvelopeView<P>| n.0).push(
            nv[i as int].0,
        ));
        i = i + 1;
    }
    assert(nv.take(nv.len() as int) =~= nv);
    let ghost ids = ids_view(node_ids@);
    assert(ids == nv.map_values(|n: EnvelopeView<P>| n.0));
    let ghost s = cs_from_node@;
    let ghost ev = |e: (String, P)| (e.0@, e.1);
    let mut out: Vec<(String, P)> = Vec::new();
    if !is_known(&node_ids, cs_from_node) {
        proof {
            assert forall|x: Seq<char>, p: P| !out@.map_values(ev).contains((x, p)) && !bounded_sink(arcs@, nv, s, x, p) by {}
        }
        return out;
    }
    // The names met, found round by round until a round adds none.
    let mut reached: Vec<String> = Vec::new();
    reached.push(cs_from_node.clone());
    let ghost names = search_names(arcs@, s);
    let ghost mut k: nat = 0;
    let ghost cand = seq![s] + arcs@.map_values(|a: RatedArc| a.arc.from@) + arcs@.map_values(|a: RatedArc| a.arc.to@);
    proof {
        assert forall|x: Seq<char>| #[trigger] names.contains(x) implies cand.contains(x) by {
            if x == s {
                assert(cand[0] == x);
            } else {
                let j = choose|j: int| 0 <= j < arcs@.len() && (#[trigger] arcs@[j].arc.from@ == x || arcs@[j].arc.to@ == x);
                if arcs@[j].arc.from@ == x {
                    assert(cand[1 + j] == x);
                } else {
                    assert(cand[1 + arcs@.len() + j] == x);
                }
            }
        }
        assert forall|x: Seq<char>| #[trigger] ids_view(reached@).contains(x) <==> decision_within(arcs@, ids, s, x, 0) by {
            if ids_view(reached@).contains(x) {
                let t = choose|t: int| 0 <= t < ids_view(reached@).len() && ids_view(reached@)[t] == x;
            }
            if x == s {
                assert(ids_view(reached@)[0] == x);
            }
        }
    }
    let mut done = false;
    while !done
        invariant
            ids == ids_view(node_ids@),
            names == search_names(arcs@, s),
            forall|x: Seq<char>| #[trigger] names.contains(x) ==> cand.contains(x),
            ids_view(reached@).no_duplicates(),
            forall|x: Seq<char>| #[trigger] ids_view(reached@).contains(x) <==> decision_within(arcs@, ids, s, x, k),
            done ==> forall|x: Seq<char>| #[trigger] decision_within(arcs@, ids, s, x, k + 1) == decision_within(arcs@, ids, s, x, k),
            ids_view(reached@).len() <= cand.len(),
        decreases (cand.len() - ids_view(reached@).len()) * 2 + (if done { 0int } else { 1int }),
    {
        let before_len = reached.len();
        let ghost before = ids_view(reached@);
        decision_round(arcs, &node_ids, &mut reached);
        proof {
            assert forall|x: Seq<char>| #[trigger] ids_view(reached@).contains(x) <==> decision_within(arcs@, ids, s, x, k + 1) by {
                if decision_within(arcs@, ids, s, x, k + 1) && !decision_within(arcs@, ids, s, x, k) {
                    let j = choose|j: int|
                        0 <= j < arcs@.len() && decision_step(ids, #[trigger] arcs@[j]) && ((arcs@[j].arc.to@ == x
                            && decision_within(arcs@, ids, s, arcs@[j].arc.from@, k)) || (arcs@[j].arc.from@ == x
                            && decision_within(arcs@, ids, s, arcs@[j].arc.to@, k)));
                    if arcs@[j].arc.to@ == x && decision_within(arcs@, ids, s, arcs@[j].arc.from@, k) {
                        assert(before.contains(arcs@[j].arc.from@));
                    } else {
                        assert(before.contains(arcs@[j].arc.to@));
                    }
                }
            }
            let rv = ids_view(reached@);
            assert forall|x: Seq<char>| rv.to_set().contains(x) implies cand.to_set().contains(x) by {
                assert(rv.contains(x));
                lemma_within_names(arcs@, ids, s, x, k + 1);
            }
            rv.unique_seq_to_set();
            cand.lemma_cardinality_of_set();
            vstd::set_lib::lemma_len_subset(rv.to_set(), cand.to_set());
        }
        if reached.len() == before_len {
            proof {
                assert forall|x: Seq<char>| #[trigger] decision_within(arcs@, ids, s, x, k + 1) == decision_within(arcs@, ids, s, x, k) by {
                    if decision_within(arcs@, ids, s, x, k + 1) {
                        lemma_same_names(before, ids_view(reached@), x);
                    }
                }
            }
            done = true;
        } else {
            proof {
                k = k + 1;
            }
        }
    }
    let ghost rv = ids_view(reached@);
    proof {
        assert forall|x: Seq<char>| #[trigger] rv.contains(x) <==> decision_reach(arcs@, ids, s, x) by {
            if decision_reach(arcs@, ids, s, x) {
                let m = choose|m: nat| #[trigger] decision_within(arcs@, ids, s, x, m);
                if m <= k {
                    lemma_within_grows(arcs@, ids, s, x, m, k);
                } else {
                    lemma_within_settles(arcs@, ids, s, k, m);
                }
            }
            if rv.contains(x) {
                assert(decision_within(arcs@, ids, s, x, k));
            }
        }
    }
    let mut t: usize = 0;
    while t < reached.len()
        invariant
            nv == envelope_views(nodes@),
            ids == nv.map_values(|n: EnvelopeView<P>| n.0),
            known(ids, s),
            ev == (|e: (String, P)| (e.0@, e.1)),
            rv == ids_view(reached@),
            rv.no_duplicates(),
            forall|x: Seq<char>| #[trigger] rv.contains(x) <==> decision_reach(arcs@, ids, s, x),
            t <= rv.len(),
            forall|i: int, j: int| 0 <= i < j < out@.len() ==> seq_less(out@[i].0@, out@[j].0@),
            forall|x: Seq<char>, p: P| #[trigger] out@.map_values(ev).contains((x, p)) <==> rv.take(t as int).contains(x)
                && bounded_sink(arcs@, nv, s, x, p),
        decreases rv.len() - t,
    {
        let x = &reached[t];
        let ghost before = out@.map_values(ev);
        proof {
            assert(rv.take(t + 1) =~= rv.take(t as int).push(x@));
            reveal_strlit("sink_");
            assert(rv.contains(x@)) by {
                assert(rv[t as int] == x@);
            }
            assert forall|y: Seq<char>| #[trigger] rv.take(t + 1).contains(y) <==> rv.take(t as int).contains(y) || y == x@ by {
                crate::anchors::lemma_concat_contains(rv.take(t as int), seq![x@], y);
                assert(rv.take(t as int).push(x@) =~= rv.take(t as int) + seq![x@]);
                if y == x@ {
                    assert(seq![x@][0] == y);
                }
                if seq![x@].contains(y) {
                    assert(seq![x@][0] == y);
                }
            }
            assert(!rv.take(t as int).contains(x@)) by {
                if rv.take(t as int).contains(x@) {
                    let z = choose|z: int| 0 <= z < t && rv.take(t as int)[z] == x@;
                    assert(rv[z] == rv[t as int]);
                }
            }
        }
        let sink_named = has_prefix_exec(x, "sink_");
        let found = envelope_lookup(nodes, x);
        let mut added = false;
        if sink_named {
            match found {
                Some((true, Some(p))) => {
                    proof {
                        assert forall|q: int| 0 <= q < out@.len() implies out@[q].0@ != x@ by {
                            assert(before[q] == (out@[q].0@, out@[q].1));
                            assert(before.contains(before[q]));
                        }
                    }
                    insert_by_name(&mut out, x.clone(), p);
                    proof {
                        let after = out@.map_values(ev);
                        assert(after.to_multiset() == before.to_multiset().insert((x@, p)));
                        assert forall|y: Seq<char>, q: P| #[trigger] after.contains((y, q)) <==> rv.take(t + 1).contains(y)
                            && bounded_sink(arcs@, nv, s, y, q) by {
                            vstd::seq_lib::to_multiset_contains(after, (y, q));
                            vstd::seq_lib::to_multiset_contains(before, (y, q));
                            assert(rv.take(t + 1).contains(y) <==> rv.take(t as int).contains(y) || y == x@);
                        }
                    }
                    added = true;
                },
                _ => {},
            }
        }
        if !added {
            proof {
                assert forall|y: Seq<char>, q: P| #[trigger] out@.map_values(ev).contains((y, q)) <==> rv.take(t + 1).contains(y)
                    && bounded_sink(arcs@, nv, s, y, q) by {
                    assert(rv.take(t + 1).contains(y) <==> rv.take(t as int).contains(y) || y == x@);
                }
            }
        }
        t = t + 1;
    }
    proof {
        assert(rv.take(rv.len() as int) =~= rv);
    }
    out
}

/// A high-transport station that is neither a hub merger nor a feeder of one carries the
/// delivery divided among all open high-transport compressor stations of the network
/// (itself among them when it is open), and the whole delivery when there is at most one.
pub proof fn lemma_high_transport_share(arcs: Seq<RatedArc>, ids: Seq<Seq<char>>, p: RatedArc)
    requires
        arcs.len() <= usize::MAX,
        p.cap == CapClass::HighTransport,
        !hub_ids(arcs, ids).contains(p.arc.id@),
        entry_for(branch_entries(arcs, ids), p.arc.id@) is None,
    ensures
        ({
            let n = arcs.filter(
                |a: RatedArc|
                    a.arc.kind == ConnectionKind::CompressorStation && a.arc.is_open && a.cap
                        == CapClass::HighTransport,
            ).len();
            spec_map_flow_share(arcs, ids, p) matches MapFlowShare::Split(k) && k as int == if n > 1 {
                n as int
            } else {
                1
            }
        }),
{
    let raw = |a: RatedArc|
        a.arc.kind == ConnectionKind::CompressorStation && a.arc.is_open && a.cap
            == CapClass::HighTransport;
    let named = |a: RatedArc| high_transport_station(a);
    assert(named =~= raw);
    assert(high_stations(arcs) == arcs.filter(raw));
    let m = high_stations(arcs).len();
    assert(m <= arcs.len()) by {
        arcs.lemma_filter_len(named);
    }
}

/// A transport station that is neither a hub merger nor a feeder of one follows the
/// distribution rule, with the delivery otherwise divided among all open transport-class
/// compressor stations of the network (at least one); a station of the low class that is
/// neither carries the delivery divided among the active compressors.
pub proof fn lemma_transport_and_low_share(arcs: Seq<RatedArc>, ids: Seq<Seq<char>>, p: RatedArc)
    requires
        arcs.len() <= usize::MAX,
        !hub_ids(arcs, ids).contains(p.arc.id@),
        entry_for(branch_entries(arcs, ids), p.arc.id@) is None,
    ensures
        p.cap == CapClass::Transport ==> ({
            let n = arcs.filter(
                |a: RatedArc|
                    a.arc.kind == ConnectionKind::CompressorStation && a.arc.is_open && a.cap
                        == CapClass::Transport,
            ).len();
            spec_map_flow_share(arcs, ids, p) matches MapFlowShare::Distribution(k) && k as int == if n > 1 {
                n as int
            } else {
                1
            }
        }),
        p.cap == CapClass::Low ==> spec_map_flow_share(arcs, ids, p) == MapFlowShare::PerActiveCompressor,
{
    let raw = |a: RatedArc|
        a.arc.kind == ConnectionKind::CompressorStation && a.arc.is_open && a.cap == CapClass::Transport;
    let named = |a: RatedArc| distribution_station(a);
    assert(named =~= raw);
    assert(arcs.filter(named) == arcs.filter(raw));
    arcs.lemma_filter_len(named);
}

} // verus!
