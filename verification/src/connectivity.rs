//! Whether the hydraulically active part of a network joins every node a scenario involves.

use vstd::prelude::*;

use crate::graph::{mark_reachable, reachable, views};
use crate::labels::ConnectionKind;
use crate::named::{
    connected, find_name, first_pos, has_name, indexes_names, is_first, is_name_path, link,
    lemma_connected_iff_reachable, lemma_first_unique, build_adjacency,
};

verus! {

/// An arc as the routing check sees it.
pub struct NetworkArc {
    pub id: String,
    pub from: String,
    pub to: String,
    pub kind: ConnectionKind,
    pub is_open: bool,
    /// The control-valve opening (full when none is set) is above zero.
    pub opening_positive: bool,
}

/// The nodes and arcs of a network.
pub struct NetworkTopology {
    pub node_ids: Vec<String>,
    pub fixed_pressure: Vec<bool>,
    pub arcs: Vec<NetworkArc>,
}

/// The arc takes part in the nodal balance: it is open, and a control valve among
/// such arcs is not shut.
pub open spec fn spec_hydraulically_active(a: NetworkArc) -> bool {
    a.is_open && (a.kind != ConnectionKind::ControlValve || a.opening_positive)
}

/// Whether the arc takes part in the nodal balance.
pub fn hydraulically_active(a: &NetworkArc) -> (r: bool)
    ensures
        r == spec_hydraulically_active(*a),
{
    if !a.is_open {
        return false;
    }
    if a.kind == ConnectionKind::ControlValve {
        return a.opening_positive;
    }
    true
}

/// The ends of the active arcs, in order.
pub open spec fn active_ends(net: NetworkTopology) -> Seq<(Seq<char>, Seq<char>)> {
    active_ends_of(net.arcs@)
}

pub open spec fn active_ends_of(arcs: Seq<NetworkArc>) -> Seq<(Seq<char>, Seq<char>)>
    decreases arcs.len(),
{
    if arcs.len() == 0 {
        Seq::empty()
    } else {
        let r = active_ends_of(arcs.drop_last());
        if spec_hydraulically_active(arcs.last()) {
            r.push((arcs.last().from@, arcs.last().to@))
        } else {
            r
        }
    }
}

/// Node `x` must be joined: it has a non-zero demand or an imposed pressure.
pub open spec fn required(net: NetworkTopology, demand_ids: Seq<Seq<char>>, x: Seq<char>) -> bool {
    demand_ids.contains(x) || exists|i: int|
        0 <= i < net.node_ids@.len() && i < net.fixed_pressure@.len() && net.fixed_pressure@[i]
            && #[trigger] net.node_ids@[i]@ == x
}

pub open spec fn spec_routing_supports(net: NetworkTopology, demand_ids: Seq<Seq<char>>) -> bool {
    if !exists|x: Seq<char>| required(net, demand_ids, x) {
        true
    } else if active_ends(net).len() == 0 {
        false
    } else {
        forall|a: Seq<char>, b: Seq<char>|
            required(net, demand_ids, a) && required(net, demand_ids, b) ==> #[trigger] connected(
                active_ends(net),
                a,
                b,
            )
    }
}

proof fn lemma_connected_symm(ends: Seq<(Seq<char>, Seq<char>)>, a: Seq<char>, b: Seq<char>)
    requires
        connected(ends, a, b),
    ensures
        connected(ends, b, a),
{
    let p = choose|p: Seq<Seq<char>>| is_name_path(ends, p) && p[0] == a && p.last() == b;
    let q = p.reverse();
    assert forall|i: int| 0 <= i < q.len() - 1 implies #[trigger] link(ends, q[i], q[i + 1]) by {
        let j = p.len() - 2 - i;
        assert(link(ends, p[j], p[j + 1]));
        assert(q[i] == p[j + 1] && q[i + 1] == p[j]);
        let k = choose|k: int|
            0 <= k < ends.len() && ((#[trigger] ends[k].0 == p[j] && ends[k].1 == p[j + 1]) || (
            ends[k].0 == p[j + 1] && ends[k].1 == p[j]));
        assert(ends[k].0 == ends[k].0);
    }
    assert(is_name_path(ends, q));
    assert(q[0] == b && q.last() == a);
}

proof fn lemma_connected_trans(ends: Seq<(Seq<char>, Seq<char>)>, a: Seq<char>, b: Seq<char>, c: Seq<char>)
    requires
        connected(ends, a, b),
        connected(ends, b, c),
    ensures
        connected(ends, a, c),
{
    let p = choose|p: Seq<Seq<char>>| is_name_path(ends, p) && p[0] == a && p.last() == b;
    let q = choose|q: Seq<Seq<char>>| is_name_path(ends, q) && q[0] == b && q.last() == c;
    let r = p + q.drop_first();
    assert forall|i: int| 0 <= i < r.len() - 1 implies #[trigger] link(ends, r[i], r[i + 1]) by {
        if i < p.len() - 1 {
            assert(link(ends, p[i], p[i + 1]));
        } else {
            let j = i - (p.len() - 1);
            assert(link(ends, q[j], q[j + 1]));
            if i == p.len() - 1 {
                assert(r[i] == b);
            } else {
                assert(r[i] == q[j]);
            }
            assert(r[i + 1] == q[j + 1]);
        }
    }
    assert(is_name_path(ends, r));
    assert(r[0] == a);
    assert(r.last() == c);
}

/// Checks that the hydraulically active arcs join all nodes that the scenario involves:
/// the nodes of `demand_ids` (those with a non-zero demand) and every node with an
/// imposed pressure. With no such node the answer is yes; with no active arc it is no.
#[verifier::loop_isolation(false)]
pub fn routing_supports_demands(net: &NetworkTopology, demand_ids: &Vec<String>) -> (r: bool)
    requires
        net.fixed_pressure@.len() == net.node_ids@.len(),
    ensures
        r == spec_routing_supports(*net, demand_ids@.map_values(|s: String| s@)),
{
    let ghost ds = demand_ids@.map_values(|s: String| s@);
    // The required names first, then the ends of every active arc.
    let mut names: Vec<String> = Vec::new();
    let mut i: usize = 0;
    while i < demand_ids.len()
        invariant
            i <= demand_ids@.len(),
            names@.len() == i,
            forall|j: int| 0 <= j < i ==> #[trigger] names@[j]@ == ds[j],
            ds == demand_ids@.map_values(|s: String| s@),
        decreases demand_ids@.len() - i,
    {
        names.push(demand_ids[i].clone());
        i = i + 1;
    }
    let ghost mut pos: Seq<int> = Seq::empty();
    let mut i: usize = 0;
    while i < net.node_ids.len()
        invariant
            net.fixed_pressure@.len() == net.node_ids@.len(),
            ds == demand_ids@.map_values(|s: String| s@),
            i <= net.node_ids@.len(),
            forall|j: int| 0 <= j < names@.len() ==> required(*net, ds, #[trigger] names@[j]@),
            pos.len() == i,
            forall|j: int|
                0 <= j < i && net.fixed_pressure@[j] ==> 0 <= #[trigger] pos[j] < names@.len() && names@[pos[j]]@ == net.node_ids@[j]@,
            names@.len() >= demand_ids@.len(),
            forall|j: int| 0 <= j < demand_ids@.len() ==> #[trigger] names@[j]@ == ds[j],
        decreases net.node_ids@.len() - i,
    {
        let ghost names0 = names@;
        if net.fixed_pressure[i] {
            names.push(net.node_ids[i].clone());
        }
        proof {
            let ghost pos0 = pos;
            pos = pos.push((names@.len() - 1) as int);
            assert forall|j: int|
                0 <= j < i + 1 && net.fixed_pressure@[j] implies 0 <= #[trigger] pos[j] < names@.len() && names@[pos[j]]@ == net.node_ids@[j]@ by {
                if j < i {
                    assert(pos[j] == pos0[j]);
                    assert(names@[pos[j]] == names0[pos[j]]);
                } else {
                    assert(names@[names@.len() - 1]@ == net.node_ids@[j]@);
                }
            }
            assert forall|j: int| 0 <= j < names@.len() implies required(*net, ds, #[trigger] names@[j]@) by {
                if j < names0.len() {
                    assert(names@[j] == names0[j]);
                } else {
                    assert(names@[j]@ == net.node_ids@[i as int]@);
                }
            }
        }
        i = i + 1;
    }
    let r_len = names.len();
    let ghost names_r = names@;
    proof {
        assert forall|x: Seq<char>| #[trigger] required(*net, ds, x) implies exists|j: int| 0 <= j < r_len && names@[j]@ == x by {
            if ds.contains(x) {
                let j = choose|j: int| 0 <= j < ds.len() && ds[j] == x;
                assert(names@[j]@ == x);
            } else {
                let j = choose|j: int| 0 <= j < net.node_ids@.len() && j < net.fixed_pressure@.len() && net.fixed_pressure@[j]
                    && #[trigger] net.node_ids@[j]@ == x;
                assert(0 <= pos[j] < names@.len() && names@[pos[j]]@ == net.node_ids@[j]@);
            }
        }
    }
    if r_len == 0 {
        proof {
            assert(!exists|x: Seq<char>| required(*net, ds, x));
        }
        return true;
    }
    let ghost ends = active_ends(*net);
    let mut cf: Vec<usize> = Vec::new();
    let mut ct: Vec<usize> = Vec::new();
    let mut ends_len: usize = 0;
    let mut k: usize = 0;
    while k < net.arcs.len()
        invariant
            k <= net.arcs@.len(),
            ends == active_ends(*net),
            0 < r_len <= names@.len(),
            forall|j: int| 0 <= j < r_len ==> required(*net, ds, #[trigger] names@[j]@),
            ends_len == cf@.len(),
            ends_len <= k,
            names_r.len() == r_len,
            forall|j: int| 0 <= j < r_len ==> #[trigger] names@[j] == names_r[j],
            forall|j: int| 0 <= j < cf@.len() ==> cf@[j] < names@.len() && ct@[j] < names@.len(),
            cf@.len() == ct@.len(),
            active_ends_of(net.arcs@.take(k as int)).len() == cf@.len(),
            forall|j: int| #![trigger cf@[j]] 0 <= j < cf@.len() ==> names@[cf@[j] as int]@ == active_ends_of(net.arcs@.take(k as int))[j].0
                && names@[ct@[j] as int]@ == active_ends_of(net.arcs@.take(k as int))[j].1,
            forall|j: int| 0 <= j < cf@.len() ==> cf@[j] < names@.len() && ct@[j] < names@.len(),
        decreases net.arcs@.len() - k,
    {
        let arc = &net.arcs[k];
        let ghost pre = active_ends_of(net.arcs@.take(k as int));
        proof {
            assert(net.arcs@.take(k + 1).drop_last() == net.arcs@.take(k as int));
            assert(net.arcs@.take(k + 1).last() == net.arcs@[k as int]);
        }
        if hydraulically_active(arc) {
            let ghost names0 = names@;
            names.push(arc.from.clone());
            assert(names@.len() == names0.len() + 1);
            cf.push(names.len() - 1);
            names.push(arc.to.clone());
            ct.push(names.len() - 1);
            ends_len = ends_len + 1;
            proof {
                assert forall|j: int| 0 <= j < r_len implies required(*net, ds, #[trigger] names@[j]@) by {
                    assert(names@[j] == names0[j]);
                }
                let post = active_ends_of(net.arcs@.take(k + 1));
                assert(post == pre.push((arc.from@, arc.to@)));
                assert forall|j: int| #![trigger cf@[j]] 0 <= j < cf@.len() implies names@[cf@[j] as int]@ == post[j].0 && names@[ct@[j] as int]@ == post[j].1 by {
                    if j < cf@.len() - 1 {
                        assert(names@[cf@[j] as int] == names0[cf@[j] as int]);
                        assert(names@[ct@[j] as int] == names0[ct@[j] as int]);
                        assert(post[j] == pre[j]);
                    }
                }
            }
        } else {
            proof {
                assert(active_ends_of(net.arcs@.take(k + 1)) == pre);
            }
        }
        k = k + 1;
    }
    assert(net.arcs@.take(net.arcs@.len() as int) == net.arcs@);
    assert(ends == active_ends_of(net.arcs@.take(k as int)));
    if ends_len == 0 {
        proof {
            let x = names@[0]@;
            assert(required(*net, ds, x));
        }
        return false;
    }
    // Use first positions as the vertices.
    let n = names.len();
    let mut fcf: Vec<usize> = Vec::new();
    let mut fct: Vec<usize> = Vec::new();
    let ghost ns = names@.map_values(|s: String| s@);
    let mut j: usize = 0;
    while j < cf.len()
        invariant
            ns == names@.map_values(|s: String| s@),
            n == names@.len(),
            cf@.len() == ct@.len(),
            ends.len() == cf@.len(),
            forall|q: int| #![trigger cf@[q]] 0 <= q < cf@.len() ==> names@[cf@[q] as int]@ == ends[q].0 && names@[ct@[q] as int]@ == ends[q].1,
            forall|q: int| 0 <= q < cf@.len() ==> cf@[q] < names@.len() && ct@[q] < names@.len(),
            j <= cf@.len(),
            fcf@.len() == j,
            fct@.len() == j,
            forall|q: int| 0 <= q < j ==> is_first(ns, #[trigger] ends[q].0, fcf@[q] as int) && is_first(ns, ends[q].1, fct@[q] as int),
        decreases cf@.len() - j,
    {
        let a = match find_name(&names, &names[cf[j]]) {
            Some(a) => a,
            None => {
                proof { assert(ns[cf@[j as int] as int] == names@[cf@[j as int] as int]@); }
                0
            },
        };
        let b = match find_name(&names, &names[ct[j]]) {
            Some(b) => b,
            None => {
                proof { assert(ns[ct@[j as int] as int] == names@[ct@[j as int] as int]@); }
                0
            },
        };
        fcf.push(a);
        fct.push(b);
        j = j + 1;
    }
    proof {
        assert forall|q: int| 0 <= q < fcf@.len() implies fcf@[q] < n && fct@[q] < n by {
            assert(is_first(ns, ends[q].0, fcf@[q] as int));
        }
    }
    let (adj, Ghost(src)) = build_adjacency(n, &fcf, &fct);
    let ghost g = views(adj@);
    proof {
        assert(indexes_names(ns, ends, fcf@, fct@, g, src));
    }
    let mut visited: Vec<bool> = Vec::new();
    let mut i: usize = 0;
    while i < n
        invariant
            i <= n,
            visited@.len() == i,
            forall|q: int| 0 <= q < i ==> !visited@[q],
        decreases n - i,
    {
        visited.push(false);
        i = i + 1;
    }
    mark_reachable(&adj, 0, &mut visited);
    let ghost x0 = ns[0];
    proof {
        assert(is_first(ns, x0, 0));
        lemma_first_unique(ns, x0, 0);
    }
    let mut all = true;
    let mut i: usize = 0;
    while i < r_len
        invariant
            ns == names@.map_values(|s: String| s@),
            n == names@.len(),
            0 < r_len <= n,
            x0 == ns[0],
            first_pos(ns, x0) == 0,
            indexes_names(ns, ends, fcf@, fct@, g, src),
            visited@.len() == n,
            forall|v: int| 0 <= v < n ==> (visited@[v] <==> reachable(g, 0, v)),
            i <= r_len,
            all <==> forall|q: int| 0 <= q < i ==> connected(ends, x0, #[trigger] ns[q]),
        decreases r_len - i,
    {
        let c = match find_name(&names, &names[i]) {
            Some(c) => c,
            None => {
                proof { assert(ns[i as int] == names@[i as int]@); }
                0
            },
        };
        proof {
            assert(ns[i as int] == names@[i as int]@);
            lemma_first_unique(ns, ns[i as int], c as int);
            assert(has_name(ns, ns[i as int]));
            assert(has_name(ns, x0));
            lemma_connected_iff_reachable(ns, ends, fcf@, fct@, g, src, x0, ns[i as int]);
        }
        if !visited[c] {
            all = false;
        }
        i = i + 1;
    }
    proof {
        assert(required(*net, ds, x0)) by {
            assert(names@[0]@ == x0);
        }
        if all {
            assert forall|a: Seq<char>, b: Seq<char>|
                required(*net, ds, a) && required(*net, ds, b) implies #[trigger] connected(ends, a, b) by {
                let ja = choose|j: int| 0 <= j < r_len && names_r[j]@ == a;
                let jb = choose|j: int| 0 <= j < r_len && names_r[j]@ == b;
                assert(names@[ja] == names_r[ja] && names@[jb] == names_r[jb]);
                assert(ns[ja] == a && ns[jb] == b);
                assert(connected(ends, x0, ns[ja]));
                assert(connected(ends, x0, ns[jb]));
                lemma_connected_symm(ends, x0, a);
                lemma_connected_trans(ends, a, x0, b);
            }
        } else {
            let q = choose|q: int| 0 <= q < r_len && !connected(ends, x0, #[trigger] ns[q]);
            assert(required(*net, ds, ns[q]));
            assert(!connected(ends, x0, ns[q]));
        }
    }
    all
}

/// The ends that the routing check works on are exactly those of the open arcs that are
/// not shut control valves, whatever their kind: a pipe, a valve, a resistor or a
/// compressor station joins its two nodes as soon as it is open.
pub proof fn lemma_active_ends_are_open_arcs(arcs: Seq<NetworkArc>, e: (Seq<char>, Seq<char>))
    ensures
        active_ends_of(arcs).contains(e) <==> exists|i: int|
            0 <= i < arcs.len() && #[trigger] arcs[i].is_open && (arcs[i].kind
                != ConnectionKind::ControlValve || arcs[i].opening_positive) && arcs[i].from@ == e.0
                && arcs[i].to@ == e.1,
    decreases arcs.len(),
{
    if arcs.len() > 0 {
        let init = arcs.drop_last();
        lemma_active_ends_are_open_arcs(init, e);
        let r = active_ends_of(init);
        let last = arcs.last();
        if active_ends_of(arcs).contains(e) {
            if spec_hydraulically_active(last) && e == (last.from@, last.to@) {
                let n = arcs.len() - 1;
                assert(arcs[n].is_open);
            } else {
                let k = choose|k: int| 0 <= k < active_ends_of(arcs).len() && active_ends_of(arcs)[k] == e;
                if spec_hydraulically_active(last) {
                    assert(k < r.len());
                    assert(r[k] == e);
                }
                assert(r.contains(e));
                let i = choose|i: int|
                    0 <= i < init.len() && #[trigger] init[i].is_open && (init[i].kind
                        != ConnectionKind::ControlValve || init[i].opening_positive) && init[i].from@
                        == e.0 && init[i].to@ == e.1;
                assert(arcs[i] == init[i]);
            }
        }
        if exists|i: int|
            0 <= i < arcs.len() && #[trigger] arcs[i].is_open && (arcs[i].kind
                != ConnectionKind::ControlValve || arcs[i].opening_positive) && arcs[i].from@ == e.0
                && arcs[i].to@ == e.1 {
            let i = choose|i: int|
                0 <= i < arcs.len() && #[trigger] arcs[i].is_open && (arcs[i].kind
                    != ConnectionKind::ControlValve || arcs[i].opening_positive) && arcs[i].from@
                    == e.0 && arcs[i].to@ == e.1;
            if i == arcs.len() - 1 {
                let out = active_ends_of(arcs);
                assert(out[out.len() - 1] == e);
            } else {
                assert(init[i] == arcs[i]);
                assert(init[i].is_open);
                assert(r.contains(e));
                let k = choose|k: int| 0 <= k < r.len() && r[k] == e;
                let out = active_ends_of(arcs);
                assert(out[k] == e);
            }
        }
    }
}

/// An open arc that is not a shut control valve joins its two ends for the routing check:
/// whatever its kind, a scenario whose demand and fixed-pressure nodes all lie at the ends of
/// such an arc is supported.
pub proof fn lemma_open_arc_supports_its_ends(net: NetworkTopology, demand_ids: Seq<Seq<char>>, i: int)
    requires
        0 <= i < net.arcs@.len(),
        net.arcs@[i].is_open,
        net.arcs@[i].kind != ConnectionKind::ControlValve || net.arcs@[i].opening_positive,
        forall|x: Seq<char>| #[trigger] required(net, demand_ids, x) ==> x == net.arcs@[i].from@ || x == net.arcs@[i].to@,
    ensures
        spec_routing_supports(net, demand_ids),
        connected(active_ends(net), net.arcs@[i].from@, net.arcs@[i].to@),
{
    let a = net.arcs@[i].from@;
    let b = net.arcs@[i].to@;
    let ends = active_ends(net);
    assert(net.arcs@[i].is_open);
    lemma_active_ends_are_open_arcs(net.arcs@, (a, b));
    let k = choose|k: int| 0 <= k < ends.len() && ends[k] == (a, b);
    assert(link(ends, a, b)) by {
        assert(ends[k].0 == a && ends[k].1 == b);
    }
    assert(link(ends, b, a)) by {
        assert(ends[k].0 == a && ends[k].1 == b);
    }
    let pab = seq![a, b];
    assert(is_name_path(ends, pab)) by {
        assert forall|j: int| 0 <= j < pab.len() - 1 implies #[trigger] link(ends, pab[j], pab[j + 1]) by {
            assert(j == 0);
        }
    }
    let pba = seq![b, a];
    assert(is_name_path(ends, pba)) by {
        assert forall|j: int| 0 <= j < pba.len() - 1 implies #[trigger] link(ends, pba[j], pba[j + 1]) by {
            assert(j == 0);
        }
    }
    assert(pab[0] == a && pab.last() == b);
    assert(pba[0] == b && pba.last() == a);
    assert(is_name_path(ends, seq![a]));
    assert(is_name_path(ends, seq![b]));
    assert(seq![a][0] == a && seq![a].last() == a);
    assert(seq![b][0] == b && seq![b].last() == b);
    assert(connected(ends, a, b));
    assert(connected(ends, b, a));
    assert(connected(ends, a, a));
    assert(connected(ends, b, b));
    assert(ends.len() > 0);
    assert forall|x: Seq<char>, y: Seq<char>|
        required(net, demand_ids, x) && required(net, demand_ids, y) implies #[trigger] connected(ends, x, y) by {
        assert(x == a || x == b);
        assert(y == a || y == b);
    }
}

} // verus!
