//! Topological validation of an imported network (nodes, pipes, pressure anchor, connectivity).

use vstd::prelude::*;

use crate::graph::{
    count_components, count_leaders, edge, is_leader, is_walk, mark_reachable,
    reachable, views, };
use crate::named::{
    build_adjacency, connected, find_name, first_pos, has_name, indexes_names,
    is_first, is_name_path, joins, lemma_connected_iff_reachable, lemma_first_pos,
    lemma_first_unique,
};

verus! {

/// A node as the topology checks see it: its identifier, and whether its pressure is imposed.
pub struct TopologyNode {
    pub id: String,
    pub has_fixed_pressure: bool,
}

/// A pipe as the topology checks see it: its identifier and the identifiers of its two ends.
pub struct TopologyPipe {
    pub id: String,
    pub from: String,
    pub to: String,
}

/// The nodes and pipes of an imported network.
pub struct Topology {
    pub nodes: Vec<TopologyNode>,
    pub pipes: Vec<TopologyPipe>,
}

/// Why a network topology is refused.
#[derive(Debug, PartialEq, Eq)]
pub enum ValidationError {
    OrphanNode { node_id: String },
    NoSlack,
    DisconnectedGraph { components: usize },
    UnknownFromNode { pipe_id: String, node_id: String },
    UnknownToNode { pipe_id: String, node_id: String },
    EmptyNetwork,
}

pub open spec fn node_names(t: Topology) -> Seq<Seq<char>> {
    t.nodes@.map_values(|n: TopologyNode| n.id@)
}

pub open spec fn pipe_ends(t: Topology) -> Seq<(Seq<char>, Seq<char>)> {
    t.pipes@.map_values(|p: TopologyPipe| (p.from@, p.to@))
}

/// Both ends of pipe `k` name nodes of the network.
pub open spec fn pipe_known(t: Topology, k: int) -> bool {
    has_name(node_names(t), t.pipes@[k].from@) && has_name(node_names(t), t.pipes@[k].to@)
}

pub open spec fn all_pipes_known(t: Topology) -> bool {
    forall|k: int| 0 <= k < t.pipes@.len() ==> #[trigger] pipe_known(t, k)
}

/// Some pipe ends at the node named `x`.
pub open spec fn incident(t: Topology, x: Seq<char>) -> bool {
    exists|k: int| 0 <= k < t.pipes@.len() && (#[trigger] t.pipes@[k].from@ == x || t.pipes@[k].to@ == x)
}

pub open spec fn all_incident(t: Topology) -> bool {
    forall|i: int| 0 <= i < t.nodes@.len() ==> incident(t, #[trigger] node_names(t)[i])
}

/// Some node has an imposed pressure.
pub open spec fn has_slack(t: Topology) -> bool {
    exists|i: int| 0 <= i < t.nodes@.len() && #[trigger] t.nodes@[i].has_fixed_pressure
}

/// Node `i` is connected to no earlier node: it is the first node of its component.
pub open spec fn first_of_component(t: Topology, i: int) -> bool {
    forall|j: int| 0 <= j < i ==> !#[trigger] connected(pipe_ends(t), node_names(t)[j], node_names(t)[i])
}

/// Number of connected components met among the first `k` nodes.
pub open spec fn component_count(t: Topology, k: int) -> nat
    decreases k,
{
    if k <= 0 {
        0
    } else {
        component_count(t, k - 1) + if first_of_component(t, k - 1) { 1nat } else { 0nat }
    }
}

/// Every node is connected to the first node.
pub open spec fn all_connected(t: Topology) -> bool {
    forall|i: int| 0 <= i < t.nodes@.len() ==> connected(pipe_ends(t), node_names(t)[0], #[trigger] node_names(t)[i])
}

/// What `validate_topology` answers, check by check in the order it makes them.
pub open spec fn topology_verdict(t: Topology, r: Result<(), ValidationError>) -> bool {
    match r {
        Err(ValidationError::EmptyNetwork) => t.nodes@.len() == 0,
        Err(ValidationError::UnknownFromNode { pipe_id, node_id }) => {
            &&& t.nodes@.len() > 0
            &&& exists|k: int|
                0 <= k < t.pipes@.len() && (forall|j: int| 0 <= j < k ==> #[trigger] pipe_known(t, j))
                    && !has_name(node_names(t), #[trigger] t.pipes@[k].from@) && pipe_id@ == t.pipes@[k].id@
                    && node_id@ == t.pipes@[k].from@
        },
        Err(ValidationError::UnknownToNode { pipe_id, node_id }) => {
            &&& t.nodes@.len() > 0
            &&& exists|k: int|
                0 <= k < t.pipes@.len() && (forall|j: int| 0 <= j < k ==> #[trigger] pipe_known(t, j))
                    && has_name(node_names(t), #[trigger] t.pipes@[k].from@)
                    && !has_name(node_names(t), t.pipes@[k].to@) && pipe_id@ == t.pipes@[k].id@
                    && node_id@ == t.pipes@[k].to@
        },
        Err(ValidationError::OrphanNode { node_id }) => {
            &&& t.nodes@.len() > 0
            &&& all_pipes_known(t)
            &&& exists|i: int|
                0 <= i < t.nodes@.len() && (forall|j: int| 0 <= j < i ==> incident(t, #[trigger] node_names(t)[j]))
                    && !incident(t, #[trigger] node_names(t)[i]) && node_id@ == node_names(t)[i]
        },
        Err(ValidationError::NoSlack) => {
            &&& t.nodes@.len() > 0
            &&& all_pipes_known(t)
            &&& all_incident(t)
            &&& !has_slack(t)
        },
        Err(ValidationError::DisconnectedGraph { components }) => {
            &&& t.nodes@.len() > 0
            &&& all_pipes_known(t)
            &&& all_incident(t)
            &&& has_slack(t)
            &&& !all_connected(t)
            &&& components == component_count(t, t.nodes@.len() as int)
        },
        Ok(()) => {
            &&& t.nodes@.len() > 0
            &&& all_pipes_known(t)
            &&& all_incident(t)
            &&& has_slack(t)
            &&& all_connected(t)
        },
    }
}

/// The node identifiers, in order.
fn node_ids(t: &Topology) -> (names: Vec<String>)
    ensures
        names@.map_values(|s: String| s@) == node_names(*t),
{
    let mut names: Vec<String> = Vec::new();
    let mut i: usize = 0;
    while i < t.nodes.len()
        invariant
            i <= t.nodes@.len(),
            names@.len() == i,
            forall|j: int| 0 <= j < i ==> #[trigger] names@[j]@ == t.nodes@[j].id@,
        decreases t.nodes@.len() - i,
    {
        names.push(t.nodes[i].id.clone());
        i = i + 1;
    }
    assert(names@.map_values(|s: String| s@) =~= node_names(*t));
    names
}

/// First positions of the two ends of every pipe, or the first pipe with an unknown end.
fn resolve_pipes(t: &Topology, names: &Vec<String>) -> (r: Result<(Vec<usize>, Vec<usize>), ValidationError>)
    requires
        names@.map_values(|s: String| s@) == node_names(*t),
        t.nodes@.len() > 0,
    ensures
        match r {
            Ok((cf, ct)) => {
                &&& all_pipes_known(*t)
                &&& cf@.len() == t.pipes@.len()
                &&& ct@.len() == t.pipes@.len()
                &&& forall|k: int|
                    0 <= k < t.pipes@.len() ==> is_first(node_names(*t), #[trigger] pipe_ends(*t)[k].0, cf@[k] as int)
                        && is_first(node_names(*t), pipe_ends(*t)[k].1, ct@[k] as int)
            },
            Err(e) => topology_verdict(*t, Err(e)) && (e is UnknownFromNode || e is UnknownToNode),
        },
{
    let ghost ns = node_names(*t);
    let mut cf: Vec<usize> = Vec::new();
    let mut ct: Vec<usize> = Vec::new();
    let mut k: usize = 0;
    while k < t.pipes.len()
        invariant
            names@.map_values(|s: String| s@) == ns,
            ns == node_names(*t),
            t.nodes@.len() > 0,
            k <= t.pipes@.len(),
            cf@.len() == k,
            ct@.len() == k,
            forall|j: int| 0 <= j < k ==> #[trigger] pipe_known(*t, j),
            forall|j: int|
                0 <= j < k ==> is_first(ns, #[trigger] pipe_ends(*t)[j].0, cf@[j] as int) && is_first(
                    ns,
                    pipe_ends(*t)[j].1,
                    ct@[j] as int,
                ),
        decreases t.pipes@.len() - k,
    {
        let pipe = &t.pipes[k];
        let f = match find_name(names, &pipe.from) {
            Some(f) => f,
            None => {
                let e = ValidationError::UnknownFromNode { pipe_id: pipe.id.clone(), node_id: pipe.from.clone() };
                assert(!has_name(ns, t.pipes@[k as int].from@));
                return Err(e);
            },
        };
        let to = match find_name(names, &pipe.to) {
            Some(x) => x,
            None => {
                let e = ValidationError::UnknownToNode { pipe_id: pipe.id.clone(), node_id: pipe.to.clone() };
                assert(has_name(ns, t.pipes@[k as int].from@)) by {
                    assert(ns[f as int] == t.pipes@[k as int].from@);
                }
                return Err(e);
            },
        };
        proof {
            assert(ns[f as int] == t.pipes@[k as int].from@);
            assert(ns[to as int] == t.pipes@[k as int].to@);
            assert(pipe_known(*t, k as int));
        }
        cf.push(f);
        ct.push(to);
        k = k + 1;
    }
    Ok((cf, ct))
}

proof fn lemma_connected_refl(ends: Seq<(Seq<char>, Seq<char>)>, x: Seq<char>)
    ensures
        connected(ends, x, x),
{
    let p = seq![x];
    assert(is_name_path(ends, p));
    assert(p[0] == x && p.last() == x);
}

proof fn lemma_counts_agree(
    t: Topology,
    g: Seq<Seq<usize>>,
    counted: Seq<bool>,
    k: int,
)
    requires
        0 <= k <= t.nodes@.len(),
        counted.len() == t.nodes@.len(),
        forall|i: int| 0 <= i < k ==> (is_leader(g, counted, i) <==> first_of_component(t, i)),
    ensures
        count_leaders(g, counted, k) == component_count(t, k),
    decreases k,
{
    if k > 0 {
        lemma_counts_agree(t, g, counted, k - 1);
    }
}

/// Checks an imported network before it is built: at least one node, pipes whose ends
/// are known nodes, no node without a pipe, at least one node with an imposed pressure,
/// and one connected component (else the number of components is reported).
pub fn validate_topology(t: &Topology) -> (r: Result<(), ValidationError>)
    ensures
        topology_verdict(*t, r),
{
    if t.nodes.len() == 0 {
        return Err(ValidationError::EmptyNetwork);
    }
    let names = node_ids(t);
    let ghost ns = node_names(*t);
    let n = names.len();
    let (cf, ct) = match resolve_pipes(t, &names) {
        Ok(p) => p,
        Err(e) => return Err(e),
    };
    let ghost ends = pipe_ends(*t);

    // Canonical position of every node, and which positions some pipe touches.
    let mut touched: Vec<bool> = Vec::new();
    let mut i: usize = 0;
    while i < n
        invariant
            i <= n,
            touched@.len() == i,
            forall|j: int| 0 <= j < i ==> !touched@[j],
        decreases n - i,
    {
        touched.push(false);
        i = i + 1;
    }
    let mut k: usize = 0;
    while k < cf.len()
        invariant
            n == ns.len(),
            ends == pipe_ends(*t),
            cf@.len() == t.pipes@.len(),
            ct@.len() == t.pipes@.len(),
            forall|j: int|
                0 <= j < t.pipes@.len() ==> is_first(ns, #[trigger] ends[j].0, cf@[j] as int) && is_first(
                    ns,
                    ends[j].1,
                    ct@[j] as int,
                ),
            k <= cf@.len(),
            touched@.len() == n,
            forall|c: int| 0 <= c < n ==> (touched@[c] <==> exists|j: int| 0 <= j < k && (cf@[j] == c || ct@[j] == c)),
        decreases cf@.len() - k,
    {
        proof {
            assert(is_first(ns, ends[k as int].0, cf@[k as int] as int));
            assert(is_first(ns, ends[k as int].1, ct@[k as int] as int));
        }
        touched.set(cf[k], true);
        touched.set(ct[k], true);
        proof {
            assert forall|c: int| 0 <= c < n implies (touched@[c] <==> exists|j: int| 0 <= j < k + 1 && (cf@[j] == c || ct@[j] == c)) by {
                if exists|j: int| 0 <= j < k + 1 && (cf@[j] == c || ct@[j] == c) {
                    let j = choose|j: int| 0 <= j < k + 1 && (cf@[j] == c || ct@[j] == c);
                    if j < k {
                        assert(exists|j: int| 0 <= j < k && (cf@[j] == c || ct@[j] == c));
                    }
                }
            }
        }
        k = k + 1;
    }
    let mut canon: Vec<usize> = Vec::new();
    let mut i: usize = 0;
    while i < n
        invariant
            n == ns.len(),
            n == t.nodes@.len(),
            names@.map_values(|s: String| s@) == ns,
            ns == node_names(*t),
            ends == pipe_ends(*t),
            all_pipes_known(*t),
            cf@.len() == t.pipes@.len(),
            ct@.len() == t.pipes@.len(),
            forall|j: int|
                0 <= j < t.pipes@.len() ==> is_first(ns, #[trigger] ends[j].0, cf@[j] as int) && is_first(
                    ns,
                    ends[j].1,
                    ct@[j] as int,
                ),
            touched@.len() == n,
            forall|c: int| 0 <= c < n ==> (touched@[c] <==> exists|j: int| 0 <= j < cf@.len() && (cf@[j] == c || ct@[j] == c)),
            i <= n,
            canon@.len() == i,
            forall|j: int| 0 <= j < i ==> is_first(ns, ns[j], #[trigger] canon@[j] as int),
            forall|j: int| 0 <= j < i ==> incident(*t, #[trigger] ns[j]),
        decreases n - i,
    {
        let c = match find_name(&names, &names[i]) {
            Some(c) => c,
            None => {
                assert(ns[i as int] == names@[i as int]@);
                return Err(ValidationError::EmptyNetwork);
            },
        };
        if !touched[c] {
            proof {
                assert(!incident(*t, ns[i as int])) by {
                    if incident(*t, ns[i as int]) {
                        let kk = choose|kk: int| 0 <= kk < t.pipes@.len() && (#[trigger] t.pipes@[kk].from@ == ns[i as int] || t.pipes@[kk].to@ == ns[i as int]);
                        assert(ends[kk].0 == t.pipes@[kk].from@);
                        assert(is_first(ns, ends[kk].0, cf@[kk] as int));
                        if t.pipes@[kk].from@ == ns[i as int] {
                            lemma_first_unique(ns, ns[i as int], cf@[kk] as int);
                            lemma_first_unique(ns, ns[i as int], c as int);
                        } else {
                            lemma_first_unique(ns, ns[i as int], ct@[kk] as int);
                            lemma_first_unique(ns, ns[i as int], c as int);
                        }
                    }
                }
                assert(names@[i as int]@ == ns[i as int]);
            }
            return Err(ValidationError::OrphanNode { node_id: names[i].clone() });
        }
        proof {
            let j = choose|j: int| 0 <= j < cf@.len() && (cf@[j] == c || ct@[j] == c);
            assert(is_first(ns, ends[j].0, cf@[j] as int));
            assert(incident(*t, ns[i as int])) by {
                if cf@[j] == c {
                    assert(t.pipes@[j].from@ == ns[i as int]);
                } else {
                    assert(t.pipes@[j].to@ == ns[i as int]);
                }
            }
        }
        canon.push(c);
        i = i + 1;
    }
    assert(all_incident(*t));

    let mut slack = false;
    let mut i: usize = 0;
    while i < n
        invariant
            n == t.nodes@.len(),
            i <= n,
            slack <==> exists|j: int| 0 <= j < i && #[trigger] t.nodes@[j].has_fixed_pressure,
        decreases n - i,
    {
        if t.nodes[i].has_fixed_pressure {
            slack = true;
        }
        i = i + 1;
    }
    if !slack {
        return Err(ValidationError::NoSlack);
    }

    assert forall|k: int| 0 <= k < cf@.len() implies cf@[k] < n && ct@[k] < n by {
        assert(is_first(ns, ends[k].0, cf@[k] as int));
        assert(is_first(ns, ends[k].1, ct@[k] as int));
    }
    let (adj, Ghost(src)) = build_adjacency(n, &cf, &ct);
    let ghost g = views(adj@);
    proof {
        assert(indexes_names(ns, ends, cf@, ct@, g, src));
    }
    let mut visited: Vec<bool> = Vec::new();
    let mut i: usize = 0;
    while i < n
        invariant
            i <= n,
            visited@.len() == i,
            forall|j: int| 0 <= j < i ==> !visited@[j],
        decreases n - i,
    {
        visited.push(false);
        i = i + 1;
    }
    mark_reachable(&adj, 0, &mut visited);
    let ghost x0 = ns[0];
    proof {
        assert(is_first(ns, x0, 0));
        lemma_first_unique(ns, x0, 0);
    }
    let mut all = true;
    let mut i: usize = 0;
    while i < n
        invariant
            n == ns.len(),
            n == t.nodes@.len(),
            ns == node_names(*t),
            ends == pipe_ends(*t),
            x0 == ns[0],
            first_pos(ns, x0) == 0,
            indexes_names(ns, ends, cf@, ct@, g, src),
            visited@.len() == n,
            canon@.len() == n,
            forall|j: int| 0 <= j < n ==> is_first(ns, ns[j], #[trigger] canon@[j] as int),
            forall|v: int| 0 <= v < n ==> (visited@[v] <==> reachable(g, 0, v)),
            i <= n,
            all <==> forall|j: int| 0 <= j < i ==> connected(ends, x0, #[trigger] ns[j]),
        decreases n - i,
    {
        proof {
            assert(is_first(ns, ns[i as int], canon@[i as int] as int));
            lemma_first_unique(ns, ns[i as int], canon@[i as int] as int);
            assert(has_name(ns, ns[i as int]));
            assert(has_name(ns, x0));
            lemma_connected_iff_reachable(ns, ends, cf@, ct@, g, src, x0, ns[i as int]);
        }
        if !visited[canon[i]] {
            all = false;
        }
        i = i + 1;
    }
    if all {
        return Ok(());
    }

    // Count the components: the first node of each.
    let mut counted: Vec<bool> = Vec::new();
    let mut i: usize = 0;
    while i < n
        invariant
            n == ns.len(),
            canon@.len() == n,
            i <= n,
            counted@.len() == i,
            forall|j: int| 0 <= j < i ==> (#[trigger] counted@[j] <==> canon@[j] == j),
        decreases n - i,
    {
        counted.push(canon[i] == i);
        i = i + 1;
    }
    proof {
        assert forall|u: int| 0 <= u < n && !counted@[u] implies adj@[u]@.len() == 0 by {
            if adj@[u]@.len() > 0 {
                assert(g[u].len() > 0);
                let kk = src[u][0];
                assert(joins(cf@, ct@, kk, u as usize, g[u][0]));
                assert(is_first(ns, ends[kk].0, cf@[kk] as int));
                assert(is_first(ns, ns[u], canon@[u] as int));
                if cf@[kk] as int == u {
                    lemma_first_unique(ns, ns[u], cf@[kk] as int);
                    lemma_first_unique(ns, ns[u], canon@[u] as int);
                } else {
                    lemma_first_unique(ns, ns[u], ct@[kk] as int);
                    lemma_first_unique(ns, ns[u], canon@[u] as int);
                }
            }
        }
    }
    let components = count_components(&adj, &counted);
    proof {
        assert forall|i: int| 0 <= i < n implies (is_leader(g, counted@, i) <==> first_of_component(*t, i)) by {
            assert(is_first(ns, ns[i], canon@[i] as int));
            lemma_first_unique(ns, ns[i], canon@[i] as int);
            if is_leader(g, counted@, i) {
                assert forall|j: int| 0 <= j < i implies !#[trigger] connected(pipe_ends(*t), node_names(*t)[j], node_names(*t)[i]) by {
                    assert(has_name(ns, ns[j]));
                    assert(has_name(ns, ns[i]));
                    lemma_first_pos(ns, ns[j]);
                    lemma_connected_iff_reachable(ns, ends, cf@, ct@, g, src, ns[j], ns[i]);
                    let fj = first_pos(ns, ns[j]);
                    assert(fj <= j);
                    assert(!reachable(g, fj, i));
                }
            }
            if first_of_component(*t, i) {
                if canon@[i] as int != i {
                    let f = canon@[i] as int;
                    assert(f < i);
                    lemma_connected_refl(ends, ns[i]);
                    assert(ns[f] == ns[i]);
                    assert(connected(pipe_ends(*t), node_names(*t)[f], node_names(*t)[i]));
                }
                assert forall|j: int| 0 <= j < i implies !#[trigger] reachable(g, j, i) by {
                    if reachable(g, j, i) {
                        if counted@[j] {
                            assert(is_first(ns, ns[j], canon@[j] as int));
                            lemma_first_unique(ns, ns[j], j);
                            assert(has_name(ns, ns[j]));
                            assert(has_name(ns, ns[i]));
                            lemma_connected_iff_reachable(ns, ends, cf@, ct@, g, src, ns[j], ns[i]);
                            assert(connected(pipe_ends(*t), node_names(*t)[j], node_names(*t)[i]));
                        } else {
                            let p = choose|p: Seq<int>| is_walk(g, p) && p[0] == j && p.last() == i;
                            if p.len() > 1 {
                                let z: int = 0;
                                assert(edge(g, p[z], p[z + 1]));
                                assert(adj@[j]@.len() == 0);
                            }
                        }
                    }
                }
            }
        }
        lemma_counts_agree(*t, g, counted@, n as int);
        assert(!all_connected(*t)) by {
            let j = choose|j: int| 0 <= j < n && !connected(ends, x0, #[trigger] ns[j]);
        }
    }
    Err(ValidationError::DisconnectedGraph { components })
}

/// What `validate_network_incremental` answers: the checks of `validate_topology`
/// without the orphan and connectivity ones.
pub open spec fn incremental_verdict(t: Topology, r: Result<(), ValidationError>) -> bool {
    match r {
        Err(ValidationError::EmptyNetwork) => t.nodes@.len() == 0,
        Err(ValidationError::UnknownFromNode { pipe_id, node_id }) => topology_verdict(t, r),
        Err(ValidationError::UnknownToNode { pipe_id, node_id }) => topology_verdict(t, r),
        Err(ValidationError::NoSlack) => t.nodes@.len() > 0 && all_pipes_known(t) && !has_slack(t),
        Ok(()) => t.nodes@.len() > 0 && all_pipes_known(t) && has_slack(t),
        _ => false,
    }
}

/// Lighter check for step-by-step editing: at least one node, pipes whose ends are known
/// nodes, and one node with an imposed pressure; orphan nodes and several components are
/// allowed while the network is being edited.
pub fn validate_network_incremental(t: &Topology) -> (r: Result<(), ValidationError>)
    ensures
        incremental_verdict(*t, r),
{
    if t.nodes.len() == 0 {
        return Err(ValidationError::EmptyNetwork);
    }
    let names = node_ids(t);
    match resolve_pipes(t, &names) {
        Ok(_) => {},
        Err(e) => return Err(e),
    }
    let n = t.nodes.len();
    let mut i: usize = 0;
    while i < n
        invariant
            n == t.nodes@.len(),
            all_pipes_known(*t),
            i <= n,
            forall|j: int| 0 <= j < i ==> !#[trigger] t.nodes@[j].has_fixed_pressure,
        decreases n - i,
    {
        if t.nodes[i].has_fixed_pressure {
            return Ok(());
        }
        i = i + 1;
    }
    Err(ValidationError::NoSlack)
}

/// A network that the full check accepts passes the incremental check.
pub proof fn lemma_full_check_implies_incremental(t: Topology, r: Result<(), ValidationError>)
    requires
        topology_verdict(t, Ok(())),
        incremental_verdict(t, r),
    ensures
        r is Ok,
{
    match r {
        Err(ValidationError::UnknownFromNode { pipe_id, node_id }) => {
            let k = choose|k: int|
                0 <= k < t.pipes@.len() && (forall|j: int| 0 <= j < k ==> #[trigger] pipe_known(t, j))
                    && !has_name(node_names(t), #[trigger] t.pipes@[k].from@) && pipe_id@ == t.pipes@[k].id@
                    && node_id@ == t.pipes@[k].from@;
            assert(pipe_known(t, k));
        },
        Err(ValidationError::UnknownToNode { pipe_id, node_id }) => {
            let k = choose|k: int|
                0 <= k < t.pipes@.len() && (forall|j: int| 0 <= j < k ==> #[trigger] pipe_known(t, j))
                    && has_name(node_names(t), #[trigger] t.pipes@[k].from@)
                    && !has_name(node_names(t), t.pipes@[k].to@) && pipe_id@ == t.pipes@[k].id@
                    && node_id@ == t.pipes@[k].to@;
            assert(pipe_known(t, k));
        },
        _ => {},
    }
}

} // verus!
