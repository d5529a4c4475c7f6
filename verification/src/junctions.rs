//! Neighbourhood measures of a node in the active part of a network, used to pick
//! internal junctions next to boundary nodes whose flow is zero.

use vstd::prelude::*;

use crate::boundary::has_prefix;
use crate::connectivity::{hydraulically_active, spec_hydraulically_active, NetworkArc};
use crate::diff::ids_view;
use crate::labels::ConnectionKind;
use crate::text::str_eq;

verus! {

/// The arc ends at node `x`.
pub open spec fn touches(a: NetworkArc, x: Seq<char>) -> bool {
    a.from@ == x || a.to@ == x
}

/// Number of active arcs that end at `x` (an arc from `x` to itself counts once).
pub open spec fn hydraulic_degree(arcs: Seq<NetworkArc>, x: Seq<char>) -> nat
    decreases arcs.len(),
{
    if arcs.len() == 0 {
        0
    } else {
        hydraulic_degree(arcs.drop_last(), x) + if spec_hydraulically_active(arcs.last()) && touches(
            arcs.last(),
            x,
        ) {
            1nat
        } else {
            0nat
        }
    }
}

proof fn lemma_degree_bounded(arcs: Seq<NetworkArc>, x: Seq<char>)
    ensures
        hydraulic_degree(arcs, x) <= arcs.len(),
    decreases arcs.len(),
{
    if arcs.len() > 0 {
        lemma_degree_bounded(arcs.drop_last(), x);
    }
}

/// Number of active arcs that end at `node_id`.
pub fn node_hydraulic_degree(arcs: &Vec<NetworkArc>, node_id: &str) -> (r: usize)
    ensures
        r == hydraulic_degree(arcs@, node_id@),
{
    let mut n: usize = 0;
    let mut k: usize = 0;
    while k < arcs.len()
        invariant
            k <= arcs@.len(),
            n == hydraulic_degree(arcs@.take(k as int), node_id@),
        decreases arcs@.len() - k,
    {
        proof {
            assert(arcs@.take(k + 1).drop_last() =~= arcs@.take(k as int));
            lemma_degree_bounded(arcs@.take(k as int), node_id@);
        }
        let a = &arcs[k];
        if hydraulically_active(a) && (str_eq(a.from.as_str(), node_id) || str_eq(a.to.as_str(), node_id)) {
            n = n + 1;
        }
        k = k + 1;
    }
    assert(arcs@.take(arcs@.len() as int) =~= arcs@);
    n
}

/// Some active compressor station ends at `x`.
pub open spec fn compressor_endpoint(arcs: Seq<NetworkArc>, x: Seq<char>) -> bool {
    exists|k: int|
        0 <= k < arcs.len() && (#[trigger] arcs[k]).kind == ConnectionKind::CompressorStation
            && spec_hydraulically_active(arcs[k]) && touches(arcs[k], x)
}

/// Whether an active compressor station ends at `node_id`.
pub fn is_compressor_endpoint(arcs: &Vec<NetworkArc>, node_id: &str) -> (r: bool)
    ensures
        r == compressor_endpoint(arcs@, node_id@),
{
    let mut k: usize = 0;
    while k < arcs.len()
        invariant
            k <= arcs@.len(),
            forall|j: int|
                0 <= j < k ==> !((#[trigger] arcs@[j]).kind == ConnectionKind::CompressorStation
                    && spec_hydraulically_active(arcs@[j]) && touches(arcs@[j], node_id@)),
        decreases arcs@.len() - k,
    {
        let a = &arcs[k];
        if a.kind == ConnectionKind::CompressorStation && hydraulically_active(a) && (str_eq(
            a.from.as_str(),
            node_id,
        ) || str_eq(a.to.as_str(), node_id)) {
            return true;
        }
        k = k + 1;
    }
    false
}

/// Least number of active arcs a junction needs to be an anchor: 3 next to both kinds of
/// zero-flow boundary, 3 next to two or more zero-flow exits and no entry, else 4.
pub open spec fn spec_min_junction_degree(entry_neighbours: usize, exit_neighbours: usize, mixed: bool) -> usize {
    if mixed {
        3
    } else if entry_neighbours == 0 && exit_neighbours >= 2 {
        3
    } else {
        4
    }
}

/// Least number of active arcs a junction needs, given its zero-flow boundary neighbours.
pub fn min_junction_degree(entry_neighbours: usize, exit_neighbours: usize, mixed: bool) -> (r: usize)
    ensures
        r == spec_min_junction_degree(entry_neighbours, exit_neighbours, mixed),
{
    if mixed {
        return 3;
    }
    if entry_neighbours == 0 && exit_neighbours >= 2 {
        return 3;
    }
    4
}

/// Whether `x` is one of the strings of `v`.
pub(crate) fn listed(v: &Vec<String>, x: &String) -> (r: bool)
    ensures
        r == ids_view(v@).contains(x@),
{
    let ghost iv = ids_view(v@);
    let mut i: usize = 0;
    while i < v.len()
        invariant
            iv == ids_view(v@),
            i <= v@.len(),
            forall|j: int| 0 <= j < i ==> iv[j] != x@,
        decreases v@.len() - i,
    {
        if str_eq(v[i].as_str(), x.as_str()) {
            assert(iv[i as int] == x@);
            return true;
        }
        i = i + 1;
    }
    false
}

/// The identifiers of `ids` that begin with `prefix`.
pub open spec fn with_prefix(ids: Seq<Seq<char>>, prefix: Seq<char>) -> Set<Seq<char>> {
    ids.to_set().filter(|x: Seq<char>| has_prefix(x, prefix))
}

/// The zero-flow boundary nodes among `anchor_ids`, split by kind: entries (`source_*`)
/// and exits (`sink_*`), each identifier once.
pub fn zero_flow_boundary_kind_sets(anchor_ids: &Vec<String>) -> (r: (Vec<String>, Vec<String>))
    ensures
        ids_view(r.0@).to_set() == with_prefix(ids_view(anchor_ids@), "source_"@),
        ids_view(r.1@).to_set() == with_prefix(ids_view(anchor_ids@), "sink_"@),
        ids_view(r.0@).no_duplicates(),
        ids_view(r.1@).no_duplicates(),
{
    let ghost av = ids_view(anchor_ids@);
    let mut entries: Vec<String> = Vec::new();
    let mut exits: Vec<String> = Vec::new();
    let mut i: usize = 0;
    assert(with_prefix(av.take(0), "source_"@) =~= ids_view(entries@).to_set());
    assert(with_prefix(av.take(0), "sink_"@) =~= ids_view(exits@).to_set());
    while i < anchor_ids.len()
        invariant
            av == ids_view(anchor_ids@),
            i <= anchor_ids@.len(),
            ids_view(entries@).to_set() == with_prefix(av.take(i as int), "source_"@),
            ids_view(exits@).to_set() == with_prefix(av.take(i as int), "sink_"@),
            ids_view(entries@).no_duplicates(),
            ids_view(exits@).no_duplicates(),
        decreases anchor_ids@.len() - i,
    {
        let id = &anchor_ids[i];
        let ghost before_e = ids_view(entries@);
        let ghost before_x = ids_view(exits@);
        proof {
            assert(av.take(i + 1) =~= av.take(i as int).push(id@));
            av.take(i as int).lemma_push_to_set_commute(id@);
        }
        if crate::boundary::has_prefix_exec(id, "source_") {
            proof {
                reveal_strlit("source_");
                reveal_strlit("sink_");
                assert(id@[1] == id@.take(7)[1]);
                if has_prefix(id@, "sink_"@) {
                    assert(id@[1] == id@.take(5)[1]);
                }
            }
            if !listed(&entries, id) {
                entries.push(id.clone());
                proof {
                    assert(ids_view(entries@) =~= before_e.push(id@));
                    before_e.lemma_push_to_set_commute(id@);
                    assert forall|a: int, b: int| 0 <= a < b < ids_view(entries@).len() implies ids_view(entries@)[a]
                        != ids_view(entries@)[b] by {
                        if b == before_e.len() {
                            assert(before_e.contains(before_e[a]));
                        }
                    }
                }
            }
        } else if crate::boundary::has_prefix_exec(id, "sink_") {
            if !listed(&exits, id) {
                exits.push(id.clone());
                proof {
                    assert(ids_view(exits@) =~= before_x.push(id@));
                    before_x.lemma_push_to_set_commute(id@);
                    assert forall|a: int, b: int| 0 <= a < b < ids_view(exits@).len() implies ids_view(exits@)[a]
                        != ids_view(exits@)[b] by {
                        if b == before_x.len() {
                            assert(before_x.contains(before_x[a]));
                        }
                    }
                }
            }
        }
        proof {
            assert(with_prefix(av.take(i + 1), "source_"@) =~= ids_view(entries@).to_set());
            assert(with_prefix(av.take(i + 1), "sink_"@) =~= ids_view(exits@).to_set());
        }
        i = i + 1;
    }
    assert(av.take(anchor_ids@.len() as int) =~= av);
    (entries, exits)
}

/// The node at the other end of arc `a` from `x`.
pub open spec fn other_end(a: NetworkArc, x: Seq<char>) -> Option<Seq<char>> {
    if a.from@ == x {
        Some(a.to@)
    } else if a.to@ == x {
        Some(a.from@)
    } else {
        None
    }
}

/// The nodes joined to `x` by an active arc.
pub open spec fn active_neighbours(arcs: Seq<NetworkArc>, x: Seq<char>) -> Set<Seq<char>> {
    Set::new(
        |y: Seq<char>|
            exists|k: int| 0 <= k < arcs.len() && spec_hydraulically_active(arcs[k]) && #[trigger] other_end(arcs[k], x) == Some(y),
    )
}

/// How many distinct active neighbours of `node_id` are zero-flow entries and how many are
/// zero-flow exits, and whether there are some of both.
pub fn count_mixed_zero_flow_neighbors(
    arcs: &Vec<NetworkArc>,
    node_id: &String,
    zero_flow_entries: &Vec<String>,
    zero_flow_exits: &Vec<String>,
) -> (r: (usize, usize, bool))
    ensures
        active_neighbours(arcs@, node_id@).finite(),
        r.0 == active_neighbours(arcs@, node_id@).filter(|y: Seq<char>| ids_view(zero_flow_entries@).contains(y)).len(),
        r.1 == active_neighbours(arcs@, node_id@).filter(|y: Seq<char>| ids_view(zero_flow_exits@).contains(y)).len(),
        r.2 == (r.0 > 0 && r.1 > 0),
        (forall|y: Seq<char>| !(ids_view(zero_flow_entries@).contains(y) && ids_view(zero_flow_exits@).contains(y)))
            ==> r.0 + r.1 <= arcs@.len(),
{
    let ghost x = node_id@;
    let ghost pe = |y: Seq<char>| ids_view(zero_flow_entries@).contains(y);
    let ghost px = |y: Seq<char>| ids_view(zero_flow_exits@).contains(y);
    let mut seen: Vec<String> = Vec::new();
    let ghost mut set: Set<Seq<char>> = Set::empty();
    let mut e: usize = 0;
    let mut f: usize = 0;
    let mut k: usize = 0;
    assert(set =~= active_neighbours(arcs@.take(0), x));
    assert(set.filter(pe) =~= Set::<Seq<char>>::empty());
    assert(set.filter(px) =~= Set::<Seq<char>>::empty());
    while k < arcs.len()
        invariant
            x == node_id@,
            pe == (|y: Seq<char>| ids_view(zero_flow_entries@).contains(y)),
            px == (|y: Seq<char>| ids_view(zero_flow_exits@).contains(y)),
            k <= arcs@.len(),
            set.finite(),
            set.len() == seen@.len(),
            set == active_neighbours(arcs@.take(k as int), x),
            forall|z: Seq<char>| #[trigger] set.contains(z) <==> ids_view(seen@).contains(z),
            e == set.filter(pe).len(),
            f == set.filter(px).len(),
            e <= seen@.len(),
            f <= seen@.len(),
            seen@.len() <= k,
            (forall|y: Seq<char>| !(ids_view(zero_flow_entries@).contains(y) && ids_view(zero_flow_exits@).contains(y)))
                ==> e + f <= seen@.len(),
        decreases arcs@.len() - k,
    {
        let a = &arcs[k];
        let ghost before = set;
        let other = if hydraulically_active(a) {
            if str_eq(a.from.as_str(), node_id.as_str()) {
                Some(a.to.clone())
            } else if str_eq(a.to.as_str(), node_id.as_str()) {
                Some(a.from.clone())
            } else {
                None
            }
        } else {
            None
        };
        proof {
            assert(other is Some ==> spec_hydraulically_active(arcs@[k as int]) && other_end(arcs@[k as int], x)
                == Some(other->0@));
            assert(other is None ==> !spec_hydraulically_active(arcs@[k as int]) || other_end(arcs@[k as int], x)
                is None);
        }
        match other {
            Some(y) => {
                if !listed(&seen, &y) {
                    let in_e = listed(zero_flow_entries, &y);
                    let in_x = listed(zero_flow_exits, &y);
                    let ghost sv = ids_view(seen@);
                    seen.push(y);
                    proof {
                        assert(ids_view(seen@) =~= sv.push(y@));
                        set = set.insert(y@);
                        assert(!before.contains(y@));
                        assert(before.filter(pe).finite());
                        assert(before.filter(px).finite());
                        if in_e {
                            assert(set.filter(pe) =~= before.filter(pe).insert(y@));
                        } else {
                            assert(set.filter(pe) =~= before.filter(pe));
                        }
                        if in_x {
                            assert(set.filter(px) =~= before.filter(px).insert(y@));
                        } else {
                            assert(set.filter(px) =~= before.filter(px));
                        }
                        assert forall|z: Seq<char>| #[trigger] set.contains(z) <==> ids_view(seen@).contains(z) by {
                            if z == y@ {
                                assert(ids_view(seen@)[sv.len() as int] == z);
                            } else if ids_view(seen@).contains(z) {
                                let t = choose|t: int| 0 <= t < ids_view(seen@).len() && ids_view(seen@)[t] == z;
                                assert(sv[t] == z);
                            } else if before.contains(z) {
                                let t = choose|t: int| 0 <= t < sv.len() && sv[t] == z;
                                assert(ids_view(seen@)[t] == z);
                            }
                        }
                    }
                    if in_e {
                        e = e + 1;
                    }
                    if in_x {
                        f = f + 1;
                    }
                }
            },
            None => {},
        }
        proof {
            let t = arcs@.take(k + 1);
            assert forall|z: Seq<char>| #[trigger] active_neighbours(t, x).contains(z) <==> set.contains(z) by {
                if active_neighbours(t, x).contains(z) {
                    let j = choose|j: int| 0 <= j < t.len() && spec_hydraulically_active(t[j]) && #[trigger] other_end(t[j], x) == Some(z);
                    if j < k {
                        assert(arcs@.take(k as int)[j] == t[j]);
                        assert(before.contains(z));
                    }
                }
                if before.contains(z) {
                    let j = choose|j: int|
                        0 <= j < arcs@.take(k as int).len() && spec_hydraulically_active(arcs@.take(k as int)[j])
                            && #[trigger] other_end(arcs@.take(k as int)[j], x) == Some(z);
                    assert(t[j] == arcs@.take(k as int)[j]);
                }
                if set.contains(z) && !before.contains(z) {
                    assert(t[k as int] == arcs@[k as int]);
                }
            }
            assert(active_neighbours(t, x) =~= set);
        }
        k = k + 1;
    }
    assert(arcs@.take(arcs@.len() as int) =~= arcs@);
    (e, f, e > 0 && f > 0)
}

} // verus!
