//! Undirected graphs over vertex indices: reachability and a marking search.

use vstd::prelude::*;

verus! {

/// The neighbour lists, as sequences.
pub open spec fn views(adj: Seq<Vec<usize>>) -> Seq<Seq<usize>> {
    adj.map_values(|l: Vec<usize>| l@)
}

/// `adj[u]` lists the neighbours of vertex `u`; every entry is a vertex below `adj.len()`.
pub open spec fn well_formed(adj: Seq<Seq<usize>>) -> bool {
    forall|u: int, m: int| 0 <= u < adj.len() && 0 <= m < adj[u].len() ==> adj[u][m] < adj.len()
}

/// `v` is listed among the neighbours of `u`.
pub open spec fn edge(adj: Seq<Seq<usize>>, u: int, v: int) -> bool {
    0 <= u < adj.len() && exists|m: int| 0 <= m < adj[u].len() && adj[u][m] == v
}

/// `p` is a walk: consecutive vertices are joined by an edge.
pub open spec fn is_walk(adj: Seq<Seq<usize>>, p: Seq<int>) -> bool {
    &&& p.len() >= 1
    &&& forall|i: int| 0 <= i < p.len() - 1 ==> #[trigger] edge(adj, p[i], p[i + 1])
}

/// Some walk leads from `s` to `t`.
pub open spec fn reachable(adj: Seq<Seq<usize>>, s: int, t: int) -> bool {
    exists|p: Seq<int>| is_walk(adj, p) && p[0] == s && p.last() == t
}

/// Every neighbour of a marked vertex is marked.
pub open spec fn closed(adj: Seq<Seq<usize>>, marked: Seq<bool>) -> bool {
    forall|u: int, v: int| 0 <= u < marked.len() && marked[u] && #[trigger] edge(adj, u, v) ==> 0 <= v < marked.len() && marked[v]
}

/// Number of unmarked vertices.
pub open spec fn num_false(s: Seq<bool>) -> nat
    decreases s.len(),
{
    if s.len() == 0 {
        0
    } else {
        num_false(s.drop_last()) + if s.last() { 0nat } else { 1nat }
    }
}

proof fn lemma_num_false_set(s: Seq<bool>, i: int)
    requires
        0 <= i < s.len(),
        !s[i],
    ensures
        num_false(s.update(i, true)) + 1 == num_false(s),
    decreases s.len(),
{
    if i < s.len() - 1 {
        lemma_num_false_set(s.drop_last(), i);
        assert(s.update(i, true).drop_last() == s.drop_last().update(i, true));
    } else {
        assert(s.update(i, true).drop_last() == s.drop_last());
    }
}

pub proof fn lemma_reachable_refl(adj: Seq<Seq<usize>>, s: int)
    ensures
        reachable(adj, s, s),
{
    let p = seq![s];
    assert(is_walk(adj, p));
    assert(p[0] == s && p.last() == s);
}

/// A walk extended by one edge.
pub proof fn lemma_reachable_step(adj: Seq<Seq<usize>>, s: int, u: int, v: int)
    requires
        reachable(adj, s, u),
        edge(adj, u, v),
    ensures
        reachable(adj, s, v),
{
    let p = choose|p: Seq<int>| is_walk(adj, p) && p[0] == s && p.last() == u;
    let q = p.push(v);
    assert forall|i: int| 0 <= i < q.len() - 1 implies #[trigger] edge(adj, q[i], q[i + 1]) by {
        if i < p.len() - 1 {
            assert(q[i] == p[i] && q[i + 1] == p[i + 1]);
        }
    }
    assert(is_walk(adj, q));
    assert(q[0] == s && q.last() == v);
}

/// A closed marking that holds `s` holds every vertex reachable from `s`.
pub proof fn lemma_closed_holds_reachable(adj: Seq<Seq<usize>>, marked: Seq<bool>, s: int, t: int)
    requires
        closed(adj, marked),
        0 <= s < marked.len(),
        marked[s],
        reachable(adj, s, t),
    ensures
        0 <= t < marked.len(),
        marked[t],
{
    let p = choose|p: Seq<int>| is_walk(adj, p) && p[0] == s && p.last() == t;
    lemma_walk_marked(adj, marked, p, p.len() - 1);
}

proof fn lemma_walk_marked(adj: Seq<Seq<usize>>, marked: Seq<bool>, p: Seq<int>, i: int)
    requires
        closed(adj, marked),
        is_walk(adj, p),
        0 <= p[0] < marked.len(),
        marked[p[0]],
        0 <= i < p.len(),
    ensures
        0 <= p[i] < marked.len(),
        marked[p[i]],
    decreases i,
{
    if i > 0 {
        lemma_walk_marked(adj, marked, p, i - 1);
        let j = i - 1;
        assert(edge(adj, p[j], p[j + 1]));
    }
}

/// Marks every vertex reachable from `start`, starting from a closed marking that
/// does not yet hold `start`.
pub fn mark_reachable(adj: &Vec<Vec<usize>>, start: usize, visited: &mut Vec<bool>)
    requires
        well_formed(views(adj@)),
        start < adj@.len(),
        old(visited)@.len() == adj@.len(),
        closed(views(adj@), old(visited)@),
    ensures
        final(visited)@.len() == adj@.len(),
        closed(views(adj@), final(visited)@),
        forall|v: int|
            0 <= v < adj@.len() ==> (final(visited)@[v] <==> (old(visited)@[v] || reachable(
                views(adj@),
                start as int,
                v,
            ))),
{
    let ghost g = views(adj@);
    let ghost old_v = visited@;
    let n = adj.len();
    if visited[start] {
        proof {
            assert forall|v: int| 0 <= v < n && reachable(g, start as int, v) implies old_v[v] by {
                lemma_closed_holds_reachable(g, old_v, start as int, v);
            }
        }
        return;
    }
    proof {
        lemma_num_false_set(visited@, start as int);
        lemma_reachable_refl(g, start as int);
    }
    visited.set(start, true);
    let mut stack: Vec<usize> = Vec::new();
    stack.push(start);
    proof {
        assert forall|u: int, v: int|
            0 <= u < n && visited@[u] && !stack@.contains(u as usize) && #[trigger] edge(g, u, v)
                implies 0 <= v < n && visited@[v] by {
            assert(stack@[0] == start);
            if u != start as int {
                assert(old_v[u]);
            }
        }
    }
    while stack.len() > 0
        invariant
            n == adj@.len(),
            g == views(adj@),
            well_formed(g),
            closed(g, old_v),
            visited@.len() == n,
            old_v.len() == n,
            start < n,
            forall|v: int| 0 <= v < n && old_v[v] ==> visited@[v],
            forall|v: int| 0 <= v < n && visited@[v] ==> old_v[v] || reachable(g, start as int, v),
            visited@[start as int],
            stack@.no_duplicates(),
            forall|i: int| 0 <= i < stack@.len() ==> stack@[i] < n && visited@[stack@[i] as int],
            forall|u: int, v: int|
                0 <= u < n && visited@[u] && !stack@.contains(u as usize) && #[trigger] edge(g, u, v)
                    ==> 0 <= v < n && visited@[v],
        decreases num_false(visited@), stack@.len(),
    {
        let ghost stack_before = stack@;
        let ghost nf0 = num_false(visited@);
        let u = stack.pop().unwrap();
        let ghost stack_after_pop = stack@;
        assert(stack_before == stack_after_pop.push(u));
        assert(!stack@.contains(u)) by {
            if stack@.contains(u) {
                let k = choose|k: int| 0 <= k < stack@.len() && stack@[k] == u;
                assert(stack_before[k] == stack_before[stack_before.len() - 1]);
            }
        }
        assert forall|w: int| 0 <= w < n && w != u && !stack@.contains(w as usize) implies !#[trigger] stack_before.contains(w as usize) by {
            if stack_before.contains(w as usize) {
                let k = choose|k: int| 0 <= k < stack_before.len() && stack_before[k] == w as usize;
                assert(k < stack_before.len() - 1);
                assert(stack@[k] == w as usize);
            }
        }
        let nb = &adj[u];
        assert(nb@ == g[u as int]);
        let mut m: usize = 0;
        while m < nb.len()
            invariant
                n == adj@.len(),
                g == views(adj@),
                well_formed(g),
                closed(g, old_v),
                u < n,
                nb@ == g[u as int],
                m <= nb@.len(),
                visited@.len() == n,
                old_v.len() == n,
                start < n,
                forall|v: int| 0 <= v < n && old_v[v] ==> visited@[v],
                forall|v: int| 0 <= v < n && visited@[v] ==> old_v[v] || reachable(g, start as int, v),
                visited@[start as int],
                visited@[u as int],
                stack@.no_duplicates(),
                !stack@.contains(u),
                forall|i: int| 0 <= i < stack@.len() ==> stack@[i] < n && visited@[stack@[i] as int],
                forall|j: int| 0 <= j < m ==> visited@[nb@[j] as int],
                forall|w: int, v: int|
                    0 <= w < n && w != u && visited@[w] && !stack@.contains(w as usize) && #[trigger] edge(g, w, v)
                        ==> 0 <= v < n && visited@[v],
                num_false(visited@) <= nf0,
                num_false(visited@) < nf0 || stack@.len() == stack_after_pop.len(),
                stack_after_pop.len() + 1 == stack_before.len(),
            decreases nb@.len() - m,
        {
            let v = nb[m];
            assert(edge(g, u as int, v as int));
            if !visited[v] {
                proof {
                    lemma_reachable_step(g, start as int, u as int, v as int);
                    lemma_num_false_set(visited@, v as int);
                }
                let ghost st = stack@;
                let ghost vis0 = visited@;
                visited.set(v, true);
                stack.push(v);
                assert(stack@ == st.push(v));
                assert forall|w: int| 0 <= w < n && w != v && !stack@.contains(w as usize) implies !#[trigger] st.contains(w as usize) by {
                    if st.contains(w as usize) {
                        let k = choose|k: int| 0 <= k < st.len() && st[k] == w as usize;
                        assert(stack@[k] == w as usize);
                    }
                }
                assert forall|w: int, x: int|
                    0 <= w < n && w != u && visited@[w] && !stack@.contains(w as usize) && #[trigger] edge(g, w, x)
                        implies 0 <= x < n && visited@[x] by {
                    assert(w != v as int) by {
                        assert(stack@[stack@.len() - 1] == v);
                    }
                    assert(vis0[w]);
                    assert(!st.contains(w as usize));
                }
                assert(stack@.no_duplicates()) by {
                    assert forall|i: int, j: int| 0 <= i < stack@.len() && 0 <= j < stack@.len() && i != j implies stack@[i] != stack@[j] by {
                        if i < st.len() && j < st.len() {
                        } else if i == st.len() {
                            assert(vis0[st[j] as int]);
                        } else {
                            assert(vis0[st[i] as int]);
                        }
                    }
                }
            }
            m = m + 1;
        }
        assert forall|v: int| #[trigger] edge(g, u as int, v) implies 0 <= v < n && visited@[v] by {
            let j = choose|j: int| 0 <= j < g[u as int].len() && g[u as int][j] == v;
        }
    }
    proof {
        assert(closed(g, visited@));
        assert forall|v: int| 0 <= v < n && reachable(g, start as int, v) implies visited@[v] by {
            lemma_closed_holds_reachable(g, visited@, start as int, v);
        }
    }
}

/// Vertex `i` is counted and no earlier vertex reaches it: it is the first counted
/// vertex of its component.
pub open spec fn is_leader(adj: Seq<Seq<usize>>, counted: Seq<bool>, i: int) -> bool {
    counted[i] && forall|j: int| 0 <= j < i ==> !#[trigger] reachable(adj, j, i)
}

/// Number of leaders among the first `k` vertices.
pub open spec fn count_leaders(adj: Seq<Seq<usize>>, counted: Seq<bool>, k: int) -> nat
    decreases k,
{
    if k <= 0 {
        0
    } else {
        count_leaders(adj, counted, k - 1) + if is_leader(adj, counted, k - 1) { 1nat } else { 0nat }
    }
}

proof fn lemma_count_leaders_le(adj: Seq<Seq<usize>>, counted: Seq<bool>, k: int)
    requires
        k >= 0,
    ensures
        count_leaders(adj, counted, k) <= k,
    decreases k,
{
    if k > 0 {
        lemma_count_leaders_le(adj, counted, k - 1);
    }
}

/// Number of connected components among the counted vertices, given that an
/// uncounted vertex has no edge and is reached from no other vertex.
pub fn count_components(adj: &Vec<Vec<usize>>, counted: &Vec<bool>) -> (c: usize)
    requires
        well_formed(views(adj@)),
        counted@.len() == adj@.len(),
        forall|u: int| 0 <= u < adj@.len() && !counted@[u] ==> adj@[u]@.len() == 0,
    ensures
        c == count_leaders(views(adj@), counted@, adj@.len() as int),
{
    let ghost g = views(adj@);
    let n = adj.len();
    let mut visited: Vec<bool> = Vec::new();
    let mut i: usize = 0;
    while i < n
        invariant
            i <= n,
            visited@.len() == i,
            forall|j: int| 0 <= j < i ==> !visited@[j],
        decreases n - i,
    {
        visited.push(false);
        i = i + 1;
    }
    let mut c: usize = 0;
    let mut i: usize = 0;
    while i < n
        invariant
            n == adj@.len(),
            g == views(adj@),
            well_formed(g),
            counted@.len() == n,
            forall|u: int| 0 <= u < n && !counted@[u] ==> g[u].len() == 0,
            i <= n,
            visited@.len() == n,
            closed(g, visited@),
            forall|v: int| 0 <= v < n ==> (visited@[v] <==> exists|j: int| 0 <= j < i && counted@[j] && #[trigger] reachable(g, j, v)),
            c == count_leaders(g, counted@, i as int),
            c <= i,
        decreases n - i,
    {
        proof {
            lemma_count_leaders_le(g, counted@, i as int);
        }
        if counted[i] && !visited[i] {
            let ghost before = visited@;
            mark_reachable(adj, i, &mut visited);
            c = c + 1;
            proof {
                assert forall|j: int| 0 <= j < i implies !#[trigger] reachable(g, j, i as int) by {
                    if reachable(g, j, i as int) {
                        if counted@[j] {
                            assert(before[i as int]);
                        } else {
                            let p = choose|p: Seq<int>| is_walk(g, p) && p[0] == j && p.last() == i as int;
                            if p.len() > 1 {
                                let z: int = 0;
                                assert(edge(g, p[z], p[z + 1]));
                            }
                        }
                    }
                }
                assert(is_leader(g, counted@, i as int));
                assert forall|v: int| 0 <= v < n implies (visited@[v] <==> exists|j: int| 0 <= j < i + 1 && counted@[j] && #[trigger] reachable(g, j, v)) by {
                    if visited@[v] {
                        if !before[v] {
                            assert(reachable(g, i as int, v));
                        }
                    }
                    if exists|j: int| 0 <= j < i + 1 && counted@[j] && #[trigger] reachable(g, j, v) {
                        let j = choose|j: int| 0 <= j < i + 1 && counted@[j] && #[trigger] reachable(g, j, v);
                        if j < i {
                            assert(before[v]);
                        }
                    }
                }
            }
        } else {
            proof {
                if counted@[i as int] {
                    assert(visited@[i as int]);
                    let j = choose|j: int| 0 <= j < i && counted@[j] && #[trigger] reachable(g, j, i as int);
                    assert(!is_leader(g, counted@, i as int));
                }
                assert forall|v: int| 0 <= v < n implies (visited@[v] <==> exists|j: int| 0 <= j < i + 1 && counted@[j] && #[trigger] reachable(g, j, v)) by {
                    if exists|j: int| 0 <= j < i + 1 && counted@[j] && #[trigger] reachable(g, j, v) {
                        let j = choose|j: int| 0 <= j < i + 1 && counted@[j] && #[trigger] reachable(g, j, v);
                        if j == i {
                            lemma_closed_holds_reachable(g, visited@, i as int, v);
                        }
                    }
                }
            }
        }
        i = i + 1;
    }
    c
}

} // verus!
