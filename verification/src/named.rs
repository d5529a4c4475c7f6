//! Graphs whose vertices are named by strings and whose edges are given as name pairs.

use vstd::prelude::*;

use crate::graph::{edge, is_walk, reachable, views, well_formed};

verus! {

/// An edge of the name graph joins `a` and `b`, in either direction.
pub open spec fn link(ends: Seq<(Seq<char>, Seq<char>)>, a: Seq<char>, b: Seq<char>) -> bool {
    exists|k: int|
        0 <= k < ends.len() && ((#[trigger] ends[k].0 == a && ends[k].1 == b) || (ends[k].0 == b
            && ends[k].1 == a))
}

/// `p` is a path of names whose consecutive entries are linked.
pub open spec fn is_name_path(ends: Seq<(Seq<char>, Seq<char>)>, p: Seq<Seq<char>>) -> bool {
    &&& p.len() >= 1
    &&& forall|i: int| 0 <= i < p.len() - 1 ==> #[trigger] link(ends, p[i], p[i + 1])
}

/// Some path of names leads from `a` to `b` (every name is connected to itself).
pub open spec fn connected(ends: Seq<(Seq<char>, Seq<char>)>, a: Seq<char>, b: Seq<char>) -> bool {
    exists|p: Seq<Seq<char>>| is_name_path(ends, p) && p[0] == a && p.last() == b
}

/// `x` occurs among `names`.
pub open spec fn has_name(names: Seq<Seq<char>>, x: Seq<char>) -> bool {
    exists|i: int| 0 <= i < names.len() && names[i] == x
}

/// `i` is the first position of `x` in `names`.
pub open spec fn is_first(names: Seq<Seq<char>>, x: Seq<char>, i: int) -> bool {
    &&& 0 <= i < names.len()
    &&& names[i] == x
    &&& forall|j: int| 0 <= j < i ==> names[j] != x
}

/// The first position of `x` in `names`.
pub open spec fn first_pos(names: Seq<Seq<char>>, x: Seq<char>) -> int {
    choose|i: int| is_first(names, x, i)
}

pub proof fn lemma_first_pos(names: Seq<Seq<char>>, x: Seq<char>)
    requires
        has_name(names, x),
    ensures
        is_first(names, x, first_pos(names, x)),
{
    let i0 = choose|i: int| 0 <= i < names.len() && names[i] == x;
    lemma_first_exists(names, x, i0);
}

proof fn lemma_first_exists(names: Seq<Seq<char>>, x: Seq<char>, i: int)
    requires
        0 <= i < names.len(),
        names[i] == x,
    ensures
        exists|j: int| is_first(names, x, j),
    decreases i,
{
    if exists|j: int| 0 <= j < i && names[j] == x {
        let j = choose|j: int| 0 <= j < i && names[j] == x;
        lemma_first_exists(names, x, j);
    } else {
        assert(is_first(names, x, i));
    }
}

pub proof fn lemma_first_unique(names: Seq<Seq<char>>, x: Seq<char>, i: int)
    requires
        is_first(names, x, i),
    ensures
        first_pos(names, x) == i,
{
    lemma_first_pos(names, x);
    let j = first_pos(names, x);
    if j < i {
        assert(names[j] == x);
    } else if i < j {
        assert(names[i] == x);
    }
}

/// First position of `x` in `names`, if it occurs.
pub fn find_name(names: &Vec<String>, x: &String) -> (r: Option<usize>)
    ensures
        match r {
            Some(i) => is_first(names@.map_values(|s: String| s@), x@, i as int),
            None => !has_name(names@.map_values(|s: String| s@), x@),
        },
{
    let ghost ns = names@.map_values(|s: String| s@);
    let mut i: usize = 0;
    while i < names.len()
        invariant
            ns == names@.map_values(|s: String| s@),
            i <= names@.len(),
            forall|j: int| 0 <= j < i ==> ns[j] != x@,
        decreases names@.len() - i,
    {
        if names[i] == *x {
            return Some(i);
        }
        i = i + 1;
    }
    None
}

/// The `k`-th pair joins `u` and `v`, in either direction.
pub open spec fn joins(cf: Seq<usize>, ct: Seq<usize>, k: int, u: usize, v: usize) -> bool {
    (cf[k] == u && ct[k] == v) || (ct[k] == u && cf[k] == v)
}

/// The adjacency `adj` joins, for every `k`, `cf[k]` and `ct[k]` in both directions,
/// and nothing else: `src[u][m]` names the pair behind the entry `adj[u][m]`.
pub open spec fn adjacency_of(adj: Seq<Seq<usize>>, cf: Seq<usize>, ct: Seq<usize>, src: Seq<Seq<int>>) -> bool {
    &&& src.len() == adj.len()
    &&& forall|u: int| 0 <= u < adj.len() ==> #[trigger] src[u].len() == adj[u].len()
    &&& forall|u: int, m: int|
        0 <= u < adj.len() && 0 <= m < adj[u].len() ==> 0 <= #[trigger] src[u][m] < cf.len()
            && joins(cf, ct, src[u][m], u as usize, adj[u][m])
    &&& forall|k: int|
        0 <= k < cf.len() ==> edge(adj, #[trigger] cf[k] as int, ct[k] as int) && edge(
            adj,
            ct[k] as int,
            cf[k] as int,
        )
}

/// The neighbours of `u`: the other end of every pair that has `u` at one end; the
/// ghost result gives, for each neighbour, a pair that joins it to `u`.
fn neighbours(u: usize, cf: &Vec<usize>, ct: &Vec<usize>) -> (r: (Vec<usize>, Ghost<Seq<int>>))
    requires
        cf@.len() == ct@.len(),
    ensures
        r.1@.len() == r.0@.len(),
        forall|m: int|
            0 <= m < r.0@.len() ==> 0 <= #[trigger] r.1@[m] < cf@.len() && joins(cf@, ct@, r.1@[m], u, r.0@[m]),
        forall|k: int|
            #![trigger cf@[k]]
            0 <= k < cf@.len() ==> (cf@[k] == u ==> r.0@.contains(ct@[k])) && (ct@[k] == u
                ==> r.0@.contains(cf@[k])),
{
    let mut l: Vec<usize> = Vec::new();
    let ghost mut src: Seq<int> = Seq::empty();
    let mut k: usize = 0;
    while k < cf.len()
        invariant
            cf@.len() == ct@.len(),
            k <= cf@.len(),
            src.len() == l@.len(),
            forall|m: int| 0 <= m < l@.len() ==> 0 <= #[trigger] src[m] < k && joins(cf@, ct@, src[m], u, l@[m]),
            forall|j: int|
                #![trigger cf@[j]]
                0 <= j < k ==> (cf@[j] == u ==> l@.contains(ct@[j])) && (ct@[j] == u
                    ==> l@.contains(cf@[j])),
        decreases cf@.len() - k,
    {
        let ghost l0 = l@;
        let ghost s0 = src;
        if cf[k] == u {
            l.push(ct[k]);
            proof { src = src.push(k as int); }
        }
        let ghost l1 = l@;
        let ghost s1 = src;
        if ct[k] == u {
            l.push(cf[k]);
            proof { src = src.push(k as int); }
        }
        proof {
            assert forall|m: int| 0 <= m < l@.len() implies 0 <= #[trigger] src[m] < k + 1 && joins(cf@, ct@, src[m], u, l@[m]) by {
                if m < l0.len() {
                    assert(l@[m] == l0[m] && src[m] == s0[m]);
                } else if m < l1.len() {
                    assert(l@[m] == l1[m] && src[m] == s1[m]);
                }
            }
            assert forall|j: int|
                #![trigger cf@[j]]
                0 <= j < k + 1 implies (cf@[j] == u ==> l@.contains(ct@[j])) && (ct@[j] == u
                    ==> l@.contains(cf@[j])) by {
                if j < k {
                    if cf@[j] == u {
                        let m = choose|m: int| 0 <= m < l0.len() && l0[m] == ct@[j];
                        assert(l@[m] == l0[m]);
                    }
                    if ct@[j] == u {
                        let m = choose|m: int| 0 <= m < l0.len() && l0[m] == cf@[j];
                        assert(l@[m] == l0[m]);
                    }
                } else {
                    if cf@[j] == u {
                        assert(l1[l0.len() as int] == ct@[j]);
                        assert(l@[l0.len() as int] == l1[l0.len() as int]);
                    }
                    if ct@[j] == u {
                        assert(l@[l1.len() as int] == cf@[j]);
                    }
                }
            }
        }
        k = k + 1;
    }
    (l, Ghost(src))
}

/// Adjacency lists over `n` vertices joining `cf[k]` and `ct[k]` for every `k`.
pub fn build_adjacency(n: usize, cf: &Vec<usize>, ct: &Vec<usize>) -> (r: (Vec<Vec<usize>>, Ghost<Seq<Seq<int>>>))
    requires
        cf@.len() == ct@.len(),
        forall|k: int| 0 <= k < cf@.len() ==> cf@[k] < n && ct@[k] < n,
    ensures
        r.0@.len() == n,
        well_formed(views(r.0@)),
        adjacency_of(views(r.0@), cf@, ct@, r.1@),
{
    let mut adj: Vec<Vec<usize>> = Vec::new();
    let ghost mut src: Seq<Seq<int>> = Seq::empty();
    let mut u: usize = 0;
    while u < n
        invariant
            cf@.len() == ct@.len(),
            forall|k: int| 0 <= k < cf@.len() ==> cf@[k] < n && ct@[k] < n,
            u <= n,
            adj@.len() == u,
            src.len() == u,
            forall|w: int| 0 <= w < u ==> #[trigger] src[w].len() == adj@[w]@.len(),
            forall|w: int, m: int|
                0 <= w < u && 0 <= m < adj@[w]@.len() ==> 0 <= #[trigger] src[w][m] < cf@.len() && joins(
                    cf@,
                    ct@,
                    src[w][m],
                    w as usize,
                    adj@[w]@[m],
                ),
            forall|k: int|
                #![trigger cf@[k]]
                0 <= k < cf@.len() ==> (cf@[k] < u ==> adj@[cf@[k] as int]@.contains(ct@[k])) && (
                ct@[k] < u ==> adj@[ct@[k] as int]@.contains(cf@[k])),
        decreases n - u,
    {
        let (l, Ghost(ls)) = neighbours(u, cf, ct);
        let ghost a0 = adj@;
        adj.push(l);
        proof {
            src = src.push(ls);
            assert forall|w: int| 0 <= w < u + 1 implies #[trigger] src[w].len() == adj@[w]@.len() by {
                if w < u {
                    assert(adj@[w] == a0[w]);
                }
            }
            assert forall|w: int, m: int|
                0 <= w < u + 1 && 0 <= m < adj@[w]@.len() implies 0 <= #[trigger] src[w][m] < cf@.len() && joins(
                    cf@,
                    ct@,
                    src[w][m],
                    w as usize,
                    adj@[w]@[m],
                ) by {
                if w < u {
                    assert(adj@[w] == a0[w]);
                } else {
                    assert(adj@[w]@[m] == l@[m]);
                    assert(src[w] == ls);
                }
            }
        }
        u = u + 1;
    }
    proof {
        let g = views(adj@);
        assert forall|k: int| 0 <= k < cf@.len() implies edge(g, #[trigger] cf@[k] as int, ct@[k] as int)
            && edge(g, ct@[k] as int, cf@[k] as int) by {
            assert(cf@[k] == cf@[k]);
            let m1 = choose|m: int| 0 <= m < adj@[cf@[k] as int]@.len() && adj@[cf@[k] as int]@[m] == ct@[k];
            let m2 = choose|m: int| 0 <= m < adj@[ct@[k] as int]@.len() && adj@[ct@[k] as int]@[m] == cf@[k];
            assert(g[cf@[k] as int][m1] == ct@[k]);
            assert(g[ct@[k] as int][m2] == cf@[k]);
        }
        assert forall|w: int, m: int| 0 <= w < g.len() && 0 <= m < g[w].len() implies g[w][m] < g.len() by {
            assert(g[w][m] == adj@[w]@[m]);
            assert(joins(cf@, ct@, src[w][m], w as usize, adj@[w]@[m]));
        }
        assert forall|u: int| 0 <= u < g.len() implies #[trigger] src[u].len() == g[u].len() by {
            assert(src[u].len() == adj@[u]@.len());
        }
        assert forall|w: int, m: int| 0 <= w < g.len() && 0 <= m < g[w].len() implies 0 <= #[trigger] src[w][m] < cf@.len()
            && joins(cf@, ct@, src[w][m], w as usize, g[w][m]) by {
            assert(g[w][m] == adj@[w]@[m]);
        }
    }
    (adj, Ghost(src))
}

/// The index graph of the name graph: vertices are the positions of `names`, each
/// edge joins the first positions of the two names of an edge.
pub open spec fn indexes_names(
    names: Seq<Seq<char>>,
    ends: Seq<(Seq<char>, Seq<char>)>,
    cf: Seq<usize>,
    ct: Seq<usize>,
    g: Seq<Seq<usize>>,
    src: Seq<Seq<int>>,
) -> bool {
    &&& cf.len() == ends.len()
    &&& ct.len() == ends.len()
    &&& forall|k: int|
        0 <= k < ends.len() ==> is_first(names, #[trigger] ends[k].0, cf[k] as int) && is_first(
            names,
            ends[k].1,
            ct[k] as int,
        )
    &&& g.len() == names.len()
    &&& names.len() <= usize::MAX
    &&& well_formed(g)
    &&& adjacency_of(g, cf, ct, src)
}

proof fn lemma_index_walk_to_names(
    names: Seq<Seq<char>>,
    ends: Seq<(Seq<char>, Seq<char>)>,
    cf: Seq<usize>,
    ct: Seq<usize>,
    g: Seq<Seq<usize>>,
    src: Seq<Seq<int>>,
    q: Seq<int>,
)
    requires
        indexes_names(names, ends, cf, ct, g, src),
        is_walk(g, q),
        0 <= q[0] < names.len(),
    ensures
        forall|i: int| 0 <= i < q.len() ==> 0 <= #[trigger] q[i] < names.len(),
        is_name_path(ends, q.map_values(|c: int| names[c])),
{
    let p = q.map_values(|c: int| names[c]);
    assert forall|i: int| 0 <= i < q.len() implies 0 <= #[trigger] q[i] < names.len() by {
        lemma_walk_in_range(g, q, i);
    }
    assert forall|i: int| 0 <= i < p.len() - 1 implies #[trigger] link(ends, p[i], p[i + 1]) by {
        assert(edge(g, q[i], q[i + 1]));
        let u = q[i];
        let m = choose|m: int| 0 <= m < g[u].len() && g[u][m] == q[i + 1];
        let k = src[u][m];
        assert(0 <= q[i] < names.len());
        assert(0 <= q[i + 1] < names.len());
        assert(joins(cf, ct, k, u as usize, g[u][m]));
        assert(ends[k].0 == ends[k].0);
        assert(names[cf[k] as int] == ends[k].0 && names[ct[k] as int] == ends[k].1);
        assert(p[i] == names[q[i]] && p[i + 1] == names[q[i + 1]]);
        if cf[k] as int == u {
            assert(ends[k].0 == p[i] && ends[k].1 == p[i + 1]);
        } else {
            assert(ends[k].0 == p[i + 1] && ends[k].1 == p[i]);
        }
    }
}

proof fn lemma_walk_in_range(g: Seq<Seq<usize>>, q: Seq<int>, i: int)
    requires
        well_formed(g),
        is_walk(g, q),
        0 <= q[0] < g.len(),
        0 <= i < q.len(),
    ensures
        0 <= q[i] < g.len(),
    decreases i,
{
    if i > 0 {
        lemma_walk_in_range(g, q, i - 1);
        let j = i - 1;
        assert(edge(g, q[j], q[j + 1]));
        let m = choose|m: int| 0 <= m < g[q[j]].len() && g[q[j]][m] == q[j + 1];
    }
}

proof fn lemma_name_path_has_names(
    names: Seq<Seq<char>>,
    ends: Seq<(Seq<char>, Seq<char>)>,
    cf: Seq<usize>,
    ct: Seq<usize>,
    g: Seq<Seq<usize>>,
    src: Seq<Seq<int>>,
    p: Seq<Seq<char>>,
    i: int,
)
    requires
        indexes_names(names, ends, cf, ct, g, src),
        is_name_path(ends, p),
        has_name(names, p[0]),
        0 <= i < p.len(),
    ensures
        has_name(names, p[i]),
{
    if i > 0 {
        let j = i - 1;
        assert(link(ends, p[j], p[j + 1]));
        let k = choose|k: int|
            0 <= k < ends.len() && ((#[trigger] ends[k].0 == p[j] && ends[k].1 == p[j + 1]) || (
            ends[k].0 == p[j + 1] && ends[k].1 == p[j]));
        assert(is_first(names, ends[k].0, cf[k] as int));
        assert(is_first(names, ends[k].1, ct[k] as int));
    }
}

/// In an index graph of a name graph, two present names are connected exactly when the
/// first position of one reaches the first position of the other.
pub proof fn lemma_connected_iff_reachable(
    names: Seq<Seq<char>>,
    ends: Seq<(Seq<char>, Seq<char>)>,
    cf: Seq<usize>,
    ct: Seq<usize>,
    g: Seq<Seq<usize>>,
    src: Seq<Seq<int>>,
    x: Seq<char>,
    y: Seq<char>,
)
    requires
        indexes_names(names, ends, cf, ct, g, src),
        has_name(names, x),
        has_name(names, y),
    ensures
        connected(ends, x, y) <==> reachable(g, first_pos(names, x), first_pos(names, y)),
{
    lemma_first_pos(names, x);
    lemma_first_pos(names, y);
    let fx = first_pos(names, x);
    let fy = first_pos(names, y);
    if reachable(g, fx, fy) {
        let q = choose|q: Seq<int>| is_walk(g, q) && q[0] == fx && q.last() == fy;
        lemma_index_walk_to_names(names, ends, cf, ct, g, src, q);
        let p = q.map_values(|c: int| names[c]);
        assert(p[0] == x && p.last() == y);
    }
    if connected(ends, x, y) {
        let p = choose|p: Seq<Seq<char>>| is_name_path(ends, p) && p[0] == x && p.last() == y;
        assert forall|i: int| 0 <= i < p.len() implies #[trigger] has_name(names, p[i]) by {
            lemma_name_path_has_names(names, ends, cf, ct, g, src, p, i);
        }
        let q = p.map_values(|nm: Seq<char>| first_pos(names, nm));
        assert forall|i: int| 0 <= i < q.len() - 1 implies #[trigger] edge(g, q[i], q[i + 1]) by {
            assert(link(ends, p[i], p[i + 1]));
            let k = choose|k: int|
                0 <= k < ends.len() && ((#[trigger] ends[k].0 == p[i] && ends[k].1 == p[i + 1]) || (
                ends[k].0 == p[i + 1] && ends[k].1 == p[i]));
            assert(is_first(names, ends[k].0, cf[k] as int));
            assert(is_first(names, ends[k].1, ct[k] as int));
            lemma_first_unique(names, ends[k].0, cf[k] as int);
            lemma_first_unique(names, ends[k].1, ct[k] as int);
            assert(edge(g, cf[k] as int, ct[k] as int));
            assert(edge(g, ct[k] as int, cf[k] as int));
        }
        assert(is_walk(g, q));
        assert(q[0] == fx && q.last() == fy);
    }
}

} // verus!
