//! Differences between two sets of entities keyed by identifier (the nodes or pipes of a
//! base network and of a variant), and their application.

use vstd::prelude::*;

use vstd::std_specs::cmp::PartialEqSpec;

use crate::text::str_eq;

verus! {

/// Changes per entity: the entities added and updated, and the identifiers removed.
#[derive(Debug, Clone, PartialEq)]
pub struct EntityDiff<T> {
    pub added: Vec<T>,
    pub updated: Vec<T>,
    pub removed: Vec<String>,
}

impl<T> EntityDiff<T> {
    /// A diff that changes nothing.
    pub fn empty() -> (d: Self)
        ensures
            d.added@.len() == 0,
            d.updated@.len() == 0,
            d.removed@.len() == 0,
    {
        EntityDiff { added: Vec::new(), updated: Vec::new(), removed: Vec::new() }
    }
}

/// Lexicographic order of character sequences (that of `String`'s `Ord`: comparing the
/// UTF-8 bytes orders by code point).
pub open spec fn seq_less(a: Seq<char>, b: Seq<char>) -> bool
    decreases a.len(),
{
    if b.len() == 0 {
        false
    } else if a.len() == 0 {
        true
    } else if a[0] != b[0] {
        a[0] < b[0]
    } else {
        seq_less(a.drop_first(), b.drop_first())
    }
}

pub proof fn lemma_seq_less_irreflexive(a: Seq<char>)
    ensures
        !seq_less(a, a),
    decreases a.len(),
{
    if a.len() > 0 {
        lemma_seq_less_irreflexive(a.drop_first());
    }
}

pub proof fn lemma_seq_less_total(a: Seq<char>, b: Seq<char>)
    ensures
        a == b || seq_less(a, b) || seq_less(b, a),
    decreases a.len(),
{
    if a.len() > 0 && b.len() > 0 && a[0] == b[0] {
        lemma_seq_less_total(a.drop_first(), b.drop_first());
        if a.drop_first() == b.drop_first() {
            assert forall|i: int| 0 <= i < a.len() implies a[i] == b[i] by {
                if i > 0 {
                    assert(a[i] == a.drop_first()[i - 1]);
                    assert(b[i] == b.drop_first()[i - 1]);
                }
            }
            assert(a =~= b);
        }
    } else if a.len() == 0 && b.len() == 0 {
        assert(a =~= b);
    }
}

pub proof fn lemma_seq_less_asymmetric(a: Seq<char>, b: Seq<char>)
    ensures
        !(seq_less(a, b) && seq_less(b, a)),
    decreases a.len(),
{
    if a.len() > 0 && b.len() > 0 && a[0] == b[0] {
        lemma_seq_less_asymmetric(a.drop_first(), b.drop_first());
    }
}

pub proof fn lemma_seq_less_transitive(a: Seq<char>, b: Seq<char>, c: Seq<char>)
    requires
        seq_less(a, b),
        seq_less(b, c),
    ensures
        seq_less(a, c),
    decreases a.len(),
{
    if a.len() > 0 && b.len() > 0 && c.len() > 0 && a[0] == b[0] && b[0] == c[0] {
        lemma_seq_less_transitive(a.drop_first(), b.drop_first(), c.drop_first());
    }
}

/// Whether `a` orders before `b`, as `String`'s `Ord` does.
pub fn str_less(a: &str, b: &str) -> (r: bool)
    ensures
        r == seq_less(a@, b@),
{
    let va = crate::text::chars_of(a);
    let vb = crate::text::chars_of(b);
    let mut i: usize = 0;
    assert(va@.skip(0) =~= va@);
    assert(vb@.skip(0) =~= vb@);
    while i < va.len() && i < vb.len() && va[i] == vb[i]
        invariant
            i <= va@.len(),
            i <= vb@.len(),
            seq_less(va@, vb@) == seq_less(va@.skip(i as int), vb@.skip(i as int)),
        decreases va@.len() - i,
    {
        proof {
            let sa = va@.skip(i as int);
            let sb = vb@.skip(i as int);
            assert(sa.drop_first() =~= va@.skip(i + 1));
            assert(sb.drop_first() =~= vb@.skip(i + 1));
        }
        i = i + 1;
    }
    proof {
        let sa = va@.skip(i as int);
        let sb = vb@.skip(i as int);
        if i < va@.len() && i < vb@.len() {
            assert(sa[0] == va@[i as int] && sb[0] == vb@[i as int]);
        }
    }
    if i == vb.len() {
        false
    } else if i == va.len() {
        true
    } else {
        va[i] < vb[i]
    }
}

pub type Keyed<T> = (Seq<char>, T);

pub open spec fn ids_view(v: Seq<String>) -> Seq<Seq<char>> {
    v.map_values(|s: String| s@)
}

pub open spec fn keyed_view<T>(e: &(String, T)) -> Keyed<T> {
    (e.0@, e.1)
}

pub open spec fn entries_view<T>(v: Seq<(String, T)>) -> Seq<Keyed<T>> {
    v.map_values(|e: (String, T)| keyed_view(&e))
}

pub open spec fn refs_view<T>(v: Seq<&(String, T)>) -> Seq<Keyed<T>> {
    v.map_values(|e: &(String, T)| keyed_view(e))
}

/// The entities by identifier; of two entries with one identifier, the later one counts.
pub open spec fn to_map<T>(s: Seq<Keyed<T>>) -> Map<Seq<char>, T>
    decreases s.len(),
{
    if s.len() == 0 {
        Map::empty()
    } else {
        to_map(s.drop_last()).insert(s.last().0, s.last().1)
    }
}

/// Whether the identifiers of `s` are distinct.
pub open spec fn distinct_keys<T>(s: Seq<Keyed<T>>) -> bool {
    forall|i: int, j: int| 0 <= i < j < s.len() ==> s[i].0 != s[j].0
}

/// Whether `ids` is strictly increasing (so sorted and without repetition).
pub open spec fn strictly_sorted(ids: Seq<Seq<char>>) -> bool {
    forall|i: int, j: int| 0 <= i < j < ids.len() ==> seq_less(ids[i], ids[j])
}

pub proof fn lemma_to_map_contains<T>(s: Seq<Keyed<T>>, k: Seq<char>)
    ensures
        to_map(s).contains_key(k) <==> exists|i: int| 0 <= i < s.len() && s[i].0 == k,
    decreases s.len(),
{
    if s.len() > 0 {
        lemma_to_map_contains(s.drop_last(), k);
        if exists|i: int| 0 <= i < s.len() && s[i].0 == k {
            let i = choose|i: int| 0 <= i < s.len() && s[i].0 == k;
            if i < s.len() - 1 {
                assert(s.drop_last()[i].0 == k);
            }
        }
        if exists|i: int| 0 <= i < s.len() - 1 && s.drop_last()[i].0 == k {
            let i = choose|i: int| 0 <= i < s.len() - 1 && s.drop_last()[i].0 == k;
            assert(s[i].0 == k);
        }
    }
}

/// The value of `k` is that of its last entry.
pub proof fn lemma_to_map_last<T>(s: Seq<Keyed<T>>, i: int)
    requires
        0 <= i < s.len(),
        forall|j: int| i < j < s.len() ==> #[trigger] s[j].0 != s[i].0,
    ensures
        to_map(s).contains_key(s[i].0),
        to_map(s)[s[i].0] == s[i].1,
    decreases s.len(),
{
    if i < s.len() - 1 {
        let d = s.drop_last();
        assert forall|j: int| i < j < d.len() implies #[trigger] d[j].0 != d[i].0 by {
            assert(d[j] == s[j]);
        }
        lemma_to_map_last(d, i);
        assert(s.last().0 != s[i].0);
    }
}

/// Whether entry `i` is the last one of its identifier.
pub open spec fn is_last_of_key<T>(s: Seq<Keyed<T>>, i: int) -> bool {
    forall|j: int| i < j < s.len() ==> #[trigger] s[j].0 != s[i].0
}

/// Whether `d` is the difference from `base` to `variant`: `added` holds the entities of
/// identifiers only in the variant, `updated` those in both whose value differs (by `==`),
/// each identifier once with its value in the variant, and `removed` the identifiers only
/// in the base, in increasing order.
pub open spec fn is_entity_diff<T: PartialEq>(
    base: Map<Seq<char>, T>,
    variant: Map<Seq<char>, T>,
    added: Seq<Keyed<T>>,
    updated: Seq<Keyed<T>>,
    removed: Seq<Seq<char>>,
) -> bool {
    &&& distinct_keys(added)
    &&& distinct_keys(updated)
    &&& strictly_sorted(removed)
    &&& forall|k: Seq<char>| #[trigger] to_map(added).contains_key(k) <==> variant.contains_key(k) && !base.contains_key(k)
    &&& forall|k: Seq<char>| to_map(added).contains_key(k) ==> #[trigger] to_map(added)[k] == variant[k]
    &&& forall|k: Seq<char>| #[trigger] to_map(updated).contains_key(k) ==> variant.contains_key(k) && base.contains_key(k)
    &&& forall|k: Seq<char>| to_map(updated).contains_key(k) ==> #[trigger] to_map(updated)[k] == variant[k]
    &&& T::obeys_eq_spec() ==> forall|k: Seq<char>|
        variant.contains_key(k) && base.contains_key(k) ==> (#[trigger] to_map(updated).contains_key(k) <==> !base[k].eq_spec(&variant[k]))
    &&& forall|k: Seq<char>| #[trigger] removed.contains(k) <==> base.contains_key(k) && !variant.contains_key(k)
}

/// The position of the last entry of `k` in `s`.
fn last_index_of<T>(s: &Vec<(String, T)>, k: &String) -> (r: Option<usize>)
    ensures
        match r {
            Some(i) => i < s@.len() && s@[i as int].0@ == k@ && is_last_of_key(entries_view(s@), i as int),
            None => !to_map(entries_view(s@)).contains_key(k@),
        },
{
    let ghost ev = entries_view(s@);
    let mut i = s.len();
    while i > 0
        invariant
            ev == entries_view(s@),
            i <= s@.len(),
            forall|j: int| i <= j < s@.len() ==> #[trigger] ev[j].0 != k@,
        decreases i,
    {
        if str_eq(s[i - 1].0.as_str(), k.as_str()) {
            proof {
                assert(ev[i - 1].0 == k@);
                assert forall|j: int| i - 1 < j < ev.len() implies #[trigger] ev[j].0 != ev[i - 1].0 by {}
            }
            return Some(i - 1);
        }
        i = i - 1;
    }
    proof {
        lemma_to_map_contains(ev, k@);
    }
    None
}

/// Inserts `id` into the strictly increasing `v`, keeping it so; `id` must be new.
fn insert_sorted(v: &mut Vec<String>, id: String)
    requires
        strictly_sorted(ids_view(old(v)@)),
        !ids_view(old(v)@).contains(id@),
    ensures
        strictly_sorted(ids_view(final(v)@)),
        forall|k: Seq<char>| #[trigger] ids_view(final(v)@).contains(k)
            <==> ids_view(old(v)@).contains(k) || k == id@,
{
    let ghost ov = ids_view(v@);
    let mut p: usize = 0;
    while p < v.len() && str_less(v[p].as_str(), id.as_str())
        invariant
            ov == ids_view(v@),
            p <= v@.len(),
            forall|j: int| 0 <= j < p ==> seq_less(#[trigger] ov[j], id@),
        decreases v@.len() - p,
    {
        p = p + 1;
    }
    let ghost idv = id@;
    v.insert(p, id);
    proof {
        let nv = ids_view(v@);
        assert(nv =~= ov.insert(p as int, idv));
        if p < ov.len() {
            assert(!seq_less(ov[p as int], idv));
            assert(ov[p as int] != idv) by {
                assert(ov.contains(ov[p as int]));
            }
            lemma_seq_less_total(ov[p as int], idv);
        }
        assert forall|i: int, j: int| 0 <= i < j < nv.len() implies seq_less(nv[i], nv[j]) by {
            if i < p && j == p {
            } else if i < p && j > p {
                assert(nv[j] == ov[j - 1]);
                if j - 1 > p {
                    lemma_seq_less_transitive(idv, ov[p as int], ov[j - 1]);
                }
                lemma_seq_less_transitive(ov[i], idv, ov[j - 1]);
            } else if i == p {
                assert(nv[j] == ov[j - 1]);
                if j - 1 > p {
                    lemma_seq_less_transitive(idv, ov[p as int], ov[j - 1]);
                }
            } else if j < p {
            } else {
                assert(nv[i] == ov[i - 1] && nv[j] == ov[j - 1]);
            }
        }
        assert forall|k: Seq<char>| #[trigger] nv.contains(k) <==> ov.contains(k) || k == idv by {
            if nv.contains(k) {
                let i = choose|i: int| 0 <= i < nv.len() && nv[i] == k;
                if i < p {
                    assert(ov[i] == k);
                } else if i > p {
                    assert(ov[i - 1] == k);
                }
            }
            if ov.contains(k) {
                let i = choose|i: int| 0 <= i < ov.len() && ov[i] == k;
                if i < p {
                    assert(nv[i] == k);
                } else {
                    assert(nv[i + 1] == k);
                }
            }
            if k == idv {
                assert(nv[p as int] == k);
            }
        }
    }
}

pub proof fn lemma_last_exists<T>(s: Seq<Keyed<T>>, k: Seq<char>)
    requires
        to_map(s).contains_key(k),
    ensures
        exists|t: int| 0 <= t < s.len() && s[t].0 == k && is_last_of_key(s, t),
    decreases s.len(),
{
    lemma_to_map_contains(s, k);
    let n = s.len() as int;
    if s[n - 1].0 == k {
        assert(is_last_of_key(s, n - 1));
        assert(0 <= n - 1 < s.len() && s[n - 1].0 == k && is_last_of_key(s, n - 1));
    } else {
        let i = choose|i: int| 0 <= i < s.len() && s[i].0 == k;
        let d = s.drop_last();
        assert(d[i].0 == k);
        lemma_to_map_contains(d, k);
        lemma_last_exists(d, k);
        let t = choose|t: int| 0 <= t < d.len() && d[t].0 == k && is_last_of_key(d, t);
        assert(s[t].0 == k);
        assert forall|j: int| t < j < s.len() implies #[trigger] s[j].0 != s[t].0 by {
            if j < n - 1 {
                assert(d[j] == s[j]);
            }
        }
        assert(0 <= t < s.len() && s[t].0 == k && is_last_of_key(s, t));
    }
}

pub proof fn lemma_push_new_key<T>(s: Seq<Keyed<T>>, x: Keyed<T>)
    requires
        distinct_keys(s),
        !to_map(s).contains_key(x.0),
    ensures
        distinct_keys(s.push(x)),
        to_map(s.push(x)) == to_map(s).insert(x.0, x.1),
{
    lemma_to_map_contains(s, x.0);
    assert(s.push(x).drop_last() =~= s);
    assert forall|i: int, j: int| 0 <= i < j < s.push(x).len() implies s.push(x)[i].0 != s.push(x)[j].0 by {
        if j == s.len() {
            assert(s[i].0 != x.0);
        }
    }
}

/// Whether `k` is the identifier of an entry before `i` that is the last of its identifier.
pub open spec fn seen_key<T>(s: Seq<Keyed<T>>, i: int, k: Seq<char>) -> bool {
    exists|t: int| 0 <= t < i && #[trigger] s[t].0 == k && is_last_of_key(s, t)
}

/// The difference from `base` to `variant` (see `is_entity_diff`); `added` and `updated`
/// refer to entries of `variant`, in its order.
pub fn compute_entity_diff<'a, T: PartialEq>(base: &'a Vec<(String, T)>, variant: &'a Vec<(String, T)>) -> (d: EntityDiff<&'a (String, T)>)
    ensures
        is_entity_diff(
            to_map(entries_view(base@)),
            to_map(entries_view(variant@)),
            refs_view(d.added@),
            refs_view(d.updated@),
            ids_view(d.removed@),
        ),
{
    let ghost be = entries_view(base@);
    let ghost ve = entries_view(variant@);
    let ghost bm = to_map(be);
    let ghost vm = to_map(ve);
    let mut added: Vec<&'a (String, T)> = Vec::new();
    let mut updated: Vec<&'a (String, T)> = Vec::new();
    assert(refs_view(added@) =~= Seq::<Keyed<T>>::empty());
    assert(refs_view(updated@) =~= Seq::<Keyed<T>>::empty());
    let mut i: usize = 0;
    while i < variant.len()
        invariant
            be == entries_view(base@),
            ve == entries_view(variant@),
            bm == to_map(be),
            vm == to_map(ve),
            i <= variant@.len(),
            distinct_keys(refs_view(added@)),
            distinct_keys(refs_view(updated@)),
            forall|k: Seq<char>| #[trigger] to_map(refs_view(added@)).contains_key(k) <==> seen_key(ve, i as int, k) && !bm.contains_key(k),
            forall|k: Seq<char>| to_map(refs_view(added@)).contains_key(k) ==> #[trigger] to_map(refs_view(added@))[k] == vm[k],
            forall|k: Seq<char>| #[trigger] to_map(refs_view(updated@)).contains_key(k) ==> seen_key(ve, i as int, k) && bm.contains_key(k),
            forall|k: Seq<char>| to_map(refs_view(updated@)).contains_key(k) ==> #[trigger] to_map(refs_view(updated@))[k] == vm[k],
            T::obeys_eq_spec() ==> forall|k: Seq<char>| seen_key(ve, i as int, k) && bm.contains_key(k) ==>
                (#[trigger] to_map(refs_view(updated@)).contains_key(k) <==> !bm[k].eq_spec(&vm[k])),
        decreases variant@.len() - i,
    {
        let e = &variant[i];
        let ghost k = e.0@;
        assert(ve[i as int] == keyed_view(e));
        let is_last = match last_index_of(variant, &e.0) {
            Some(j) => j == i,
            None => false,
        };
        proof {
            lemma_to_map_contains(ve, k);
            assert(to_map(ve).contains_key(k));
        }
        if is_last {
            proof {
                lemma_to_map_last(ve, i as int);
                assert forall|kk: Seq<char>| seen_key(ve, i + 1, kk) <==> seen_key(ve, i as int, kk) || kk == k by {
                    if seen_key(ve, i + 1, kk) {
                        let t = choose|t: int| 0 <= t < i + 1 && #[trigger] ve[t].0 == kk && is_last_of_key(ve, t);
                        if t < i {
                            assert(seen_key(ve, i as int, kk));
                        }
                    }
                    if seen_key(ve, i as int, kk) {
                        let t = choose|t: int| 0 <= t < i && #[trigger] ve[t].0 == kk && is_last_of_key(ve, t);
                        assert(seen_key(ve, i + 1, kk));
                    }
                    if kk == k {
                        assert(ve[i as int].0 == kk);
                    }
                }
                assert(!seen_key(ve, i as int, k)) by {
                    if seen_key(ve, i as int, k) {
                        let t = choose|t: int| 0 <= t < i && #[trigger] ve[t].0 == k && is_last_of_key(ve, t);
                        assert(ve[i as int].0 == ve[t].0);
                    }
                }
            }
            match last_index_of(base, &e.0) {
                None => {
                    let ghost before = refs_view(added@);
                    proof {
                        lemma_push_new_key(before, keyed_view(e));
                    }
                    added.push(e);
                    assert(refs_view(added@) =~= before.push(keyed_view(e)));
                },
                Some(j) => {
                    proof {
                        lemma_to_map_last(be, j as int);
                        assert(be[j as int] == keyed_view(&base@[j as int]));
                    }
                    if !(base[j].1 == e.1) {
                        let ghost before = refs_view(updated@);
                        proof {
                            lemma_push_new_key(before, keyed_view(e));
                        }
                        updated.push(e);
                        assert(refs_view(updated@) =~= before.push(keyed_view(e)));
                    }
                },
            }
        } else {
            proof {
                assert forall|kk: Seq<char>| seen_key(ve, i + 1, kk) <==> seen_key(ve, i as int, kk) by {
                    if seen_key(ve, i + 1, kk) {
                        let t = choose|t: int| 0 <= t < i + 1 && #[trigger] ve[t].0 == kk && is_last_of_key(ve, t);
                        if t == i {
                            let jj = choose|jj: int| 0 <= jj < ve.len() && ve[jj].0 == k && is_last_of_key(ve, jj);
                            lemma_last_exists(ve, k);
                        }
                        assert(seen_key(ve, i as int, kk));
                    }
                    if seen_key(ve, i as int, kk) {
                        let t = choose|t: int| 0 <= t < i && #[trigger] ve[t].0 == kk && is_last_of_key(ve, t);
                        assert(seen_key(ve, i + 1, kk));
                    }
                }
            }
        }
        i = i + 1;
    }
    proof {
        assert forall|k: Seq<char>| vm.contains_key(k) <==> seen_key(ve, ve.len() as int, k) by {
            if vm.contains_key(k) {
                lemma_last_exists(ve, k);
            }
            if seen_key(ve, ve.len() as int, k) {
                let t = choose|t: int| 0 <= t < ve.len() && #[trigger] ve[t].0 == k && is_last_of_key(ve, t);
                lemma_to_map_last(ve, t);
            }
        }
    }
    let mut removed: Vec<String> = Vec::new();
    assert(ids_view(removed@) =~= Seq::<Seq<char>>::empty());
    let mut j: usize = 0;
    while j < base.len()
        invariant
            be == entries_view(base@),
            bm == to_map(be),
            vm == to_map(entries_view(variant@)),
            j <= base@.len(),
            strictly_sorted(ids_view(removed@)),
            forall|k: Seq<char>| #[trigger] ids_view(removed@).contains(k)
                <==> seen_key(be, j as int, k) && !vm.contains_key(k),
        decreases base@.len() - j,
    {
        let e = &base[j];
        let ghost k = e.0@;
        assert(be[j as int] == keyed_view(e));
        let is_last = match last_index_of(base, &e.0) {
            Some(t) => t == j,
            None => false,
        };
        proof {
            lemma_to_map_contains(be, k);
        }
        if is_last {
            proof {
                assert forall|kk: Seq<char>| seen_key(be, j + 1, kk) <==> seen_key(be, j as int, kk) || kk == k by {
                    if seen_key(be, j + 1, kk) {
                        let t = choose|t: int| 0 <= t < j + 1 && #[trigger] be[t].0 == kk && is_last_of_key(be, t);
                        if t < j {
                            assert(seen_key(be, j as int, kk));
                        }
                    }
                    if seen_key(be, j as int, kk) {
                        let t = choose|t: int| 0 <= t < j && #[trigger] be[t].0 == kk && is_last_of_key(be, t);
                        assert(seen_key(be, j + 1, kk));
                    }
                    if kk == k {
                        assert(be[j as int].0 == kk);
                    }
                }
                assert(!seen_key(be, j as int, k)) by {
                    if seen_key(be, j as int, k) {
                        let t = choose|t: int| 0 <= t < j && #[trigger] be[t].0 == k && is_last_of_key(be, t);
                        assert(be[j as int].0 == be[t].0);
                    }
                }
            }
            match last_index_of(variant, &e.0) {
                None => {
                    let id = e.0.clone();
                    insert_sorted(&mut removed, id);
                },
                Some(t) => {
                    proof {
                        let ve2 = entries_view(variant@);
                        assert(ve2[t as int].0 == k);
                        lemma_to_map_contains(ve2, k);
                    }
                },
            }
        } else {
            proof {
                assert forall|kk: Seq<char>| seen_key(be, j + 1, kk) <==> seen_key(be, j as int, kk) by {
                    if seen_key(be, j + 1, kk) {
                        let t = choose|t: int| 0 <= t < j + 1 && #[trigger] be[t].0 == kk && is_last_of_key(be, t);
                        assert(seen_key(be, j as int, kk));
                    }
                    if seen_key(be, j as int, kk) {
                        let t = choose|t: int| 0 <= t < j && #[trigger] be[t].0 == kk && is_last_of_key(be, t);
                        assert(seen_key(be, j + 1, kk));
                    }
                }
            }
        }
        j = j + 1;
    }
    proof {
        assert forall|k: Seq<char>| bm.contains_key(k) <==> seen_key(be, be.len() as int, k) by {
            if bm.contains_key(k) {
                lemma_last_exists(be, k);
            }
            if seen_key(be, be.len() as int, k) {
                let t = choose|t: int| 0 <= t < be.len() && #[trigger] be[t].0 == k && is_last_of_key(be, t);
                lemma_to_map_last(be, t);
            }
        }
    }
    EntityDiff { added, updated, removed }
}

pub open spec fn keys_of<T>(s: Seq<Keyed<T>>) -> Seq<Seq<char>> {
    s.map_values(|e: Keyed<T>| e.0)
}

/// The entities of `base` after the diff: the removed identifiers dropped, then each
/// updated entity and each added one put in place of any entity of its identifier.
pub open spec fn applied<T>(
    base: Map<Seq<char>, T>,
    removed: Seq<Seq<char>>,
    updated: Seq<Keyed<T>>,
    added: Seq<Keyed<T>>,
) -> Map<Seq<char>, T> {
    base.remove_keys(removed.to_set()).union_prefer_right(to_map(updated)).union_prefer_right(to_map(added))
}

/// In a sequence with distinct identifiers, every entry is the last of its identifier.
pub proof fn lemma_distinct_entries<T>(s: Seq<Keyed<T>>)
    requires
        distinct_keys(s),
    ensures
        forall|i: int| 0 <= i < s.len() ==> #[trigger] to_map(s).contains_key(s[i].0) && to_map(s)[s[i].0] == s[i].1,
        forall|k: Seq<char>| #[trigger] to_map(s).contains_key(k) <==> keys_of(s).contains(k),
{
    assert forall|i: int| 0 <= i < s.len() implies #[trigger] to_map(s).contains_key(s[i].0) && to_map(s)[s[i].0] == s[i].1 by {
        lemma_to_map_last(s, i);
    }
    assert forall|k: Seq<char>| #[trigger] to_map(s).contains_key(k) <==> keys_of(s).contains(k) by {
        lemma_to_map_contains(s, k);
        if keys_of(s).contains(k) {
            let i = choose|i: int| 0 <= i < keys_of(s).len() && keys_of(s)[i] == k;
            assert(s[i].0 == k);
        }
        if to_map(s).contains_key(k) {
            let i = choose|i: int| 0 <= i < s.len() && s[i].0 == k;
            assert(keys_of(s)[i] == k);
        }
    }
}

pub proof fn lemma_sorted_distinct<T>(s: Seq<Keyed<T>>)
    requires
        strictly_sorted(keys_of(s)),
    ensures
        distinct_keys(s),
{
    assert forall|i: int, j: int| 0 <= i < j < s.len() implies s[i].0 != s[j].0 by {
        assert(seq_less(keys_of(s)[i], keys_of(s)[j]));
        lemma_seq_less_irreflexive(s[i].0);
    }
}

/// Two sequences with distinct identifiers and the same entries at the same identifiers
/// describe the same map.
pub proof fn lemma_same_entries<T>(a: Seq<Keyed<T>>, m: Map<Seq<char>, T>)
    requires
        distinct_keys(a),
        forall|k: Seq<char>| #[trigger] m.contains_key(k) <==> keys_of(a).contains(k),
        forall|i: int| 0 <= i < a.len() ==> #[trigger] m[a[i].0] == a[i].1,
    ensures
        to_map(a) == m,
{
    lemma_distinct_entries(a);
    assert forall|k: Seq<char>| #[trigger] to_map(a).contains_key(k) implies to_map(a)[k] == m[k] by {
        let i = choose|i: int| 0 <= i < keys_of(a).len() && keys_of(a)[i] == k;
        assert(a[i].0 == k);
    }
    assert(to_map(a) =~= m);
}

/// Puts `x` in the sorted `cur`, in place of the entry of its identifier if any.
fn put_entry<'a, T>(cur: &mut Vec<&'a (String, T)>, x: &'a (String, T))
    requires
        strictly_sorted(keys_of(refs_view(old(cur)@))),
    ensures
        strictly_sorted(keys_of(refs_view(final(cur)@))),
        to_map(refs_view(final(cur)@)) == to_map(refs_view(old(cur)@)).insert(x.0@, x.1),
{
    let ghost ov = refs_view(cur@);
    let ghost k = x.0@;
    proof {
        lemma_sorted_distinct(ov);
        lemma_distinct_entries(ov);
    }
    let mut p: usize = 0;
    let mut stop = false;
    while p < cur.len() && !stop
        invariant
            ov == refs_view(cur@),
            k == x.0@,
            p <= cur@.len(),
            forall|j: int| 0 <= j < p ==> seq_less(#[trigger] ov[j].0, k),
            stop ==> p < cur@.len() && !seq_less(ov[p as int].0, k),
        decreases cur@.len() - p + (if stop { 0int } else { 1int }),
    {
        assert(ov[p as int].0 == cur@[p as int].0@);
        if str_less(cur[p].0.as_str(), x.0.as_str()) {
            p = p + 1;
        } else {
            stop = true;
        }
    }
    let ghost om = to_map(ov);
    let ghost target = om.insert(k, x.1);
    if p < cur.len() && str_eq(cur[p].0.as_str(), x.0.as_str()) {
        cur.set(p, x);
        proof {
            let nv = refs_view(cur@);
            assert(nv =~= ov.update(p as int, (k, x.1)));
            assert(keys_of(nv) =~= keys_of(ov));
            lemma_sorted_distinct(nv);
            assert forall|kk: Seq<char>| #[trigger] target.contains_key(kk) <==> keys_of(nv).contains(kk) by {
                if keys_of(ov).contains(kk) {
                }
                if kk == k {
                    assert(keys_of(ov)[p as int] == k);
                }
            }
            assert forall|i: int| 0 <= i < nv.len() implies #[trigger] target[nv[i].0] == nv[i].1 by {
                if i != p {
                    assert(nv[i] == ov[i]);
                    assert(ov[i].0 != ov[p as int].0);
                    assert(om.contains_key(ov[i].0));
                }
            }
            lemma_same_entries(nv, target);
        }
    } else {
        let ghost pp = p as int;
        proof {
            if p < cur@.len() {
                assert(!seq_less(ov[pp].0, k));
                assert(ov[pp].0 == cur@[pp].0@);
                lemma_seq_less_total(ov[pp].0, k);
            }
        }
        cur.insert(p, x);
        proof {
            let nv = refs_view(cur@);
            assert(nv =~= ov.insert(pp, (k, x.1)));
            assert(keys_of(nv) =~= keys_of(ov).insert(pp, k));
            let ko = keys_of(ov);
            let kn = keys_of(nv);
            assert forall|i: int, j: int| 0 <= i < j < kn.len() implies seq_less(kn[i], kn[j]) by {
                if i < pp && j == pp {
                } else if i < pp && j > pp {
                    if j - 1 > pp {
                        lemma_seq_less_transitive(k, ko[pp], ko[j - 1]);
                    }
                    lemma_seq_less_transitive(ko[i], k, ko[j - 1]);
                } else if i == pp {
                    if j - 1 > pp {
                        lemma_seq_less_transitive(k, ko[pp], ko[j - 1]);
                    }
                } else if j < pp {
                } else {
                    assert(kn[i] == ko[i - 1] && kn[j] == ko[j - 1]);
                }
            }
            lemma_sorted_distinct(nv);
            assert(!om.contains_key(k)) by {
                if om.contains_key(k) {
                    let i = choose|i: int| 0 <= i < ko.len() && ko[i] == k;
                    if i < pp {
                        lemma_seq_less_irreflexive(k);
                    } else {
                        if i > pp {
                            lemma_seq_less_transitive(k, ko[pp], ko[i]);
                        }
                        lemma_seq_less_irreflexive(k);
                    }
                }
            }
            assert forall|kk: Seq<char>| #[trigger] target.contains_key(kk) <==> kn.contains(kk) by {
                if ko.contains(kk) {
                    let i = choose|i: int| 0 <= i < ko.len() && ko[i] == kk;
                    if i < pp {
                        assert(kn[i] == kk);
                    } else {
                        assert(kn[i + 1] == kk);
                    }
                }
                if kn.contains(kk) {
                    let i = choose|i: int| 0 <= i < kn.len() && kn[i] == kk;
                    if i < pp {
                        assert(ko[i] == kk);
                    } else if i > pp {
                        assert(ko[i - 1] == kk);
                    }
                }
                if kk == k {
                    assert(kn[pp] == k);
                }
            }
            assert forall|i: int| 0 <= i < nv.len() implies #[trigger] target[nv[i].0] == nv[i].1 by {
                if i < pp {
                    assert(nv[i] == ov[i]);
                    assert(ov[i].0 != k) by {
                        assert(ko[i] == ov[i].0);
                        assert(ko.contains(ko[i]));
                    }
                    assert(om.contains_key(ov[i].0));
                } else if i > pp {
                    assert(nv[i] == ov[i - 1]);
                    assert(ov[i - 1].0 != k) by {
                        assert(ko[i - 1] == ov[i - 1].0);
                        assert(ko.contains(ko[i - 1]));
                    }
                    assert(om.contains_key(ov[i - 1].0));
                }
            }
            lemma_same_entries(nv, target);
        }
    }
}

/// Drops the entry of identifier `k` from the sorted `cur`, if any.
fn drop_entry<'a, T>(cur: &mut Vec<&'a (String, T)>, k: &String)
    requires
        strictly_sorted(keys_of(refs_view(old(cur)@))),
    ensures
        strictly_sorted(keys_of(refs_view(final(cur)@))),
        to_map(refs_view(final(cur)@)) == to_map(refs_view(old(cur)@)).remove(k@),
{
    let ghost ov = refs_view(cur@);
    proof {
        lemma_sorted_distinct(ov);
        lemma_distinct_entries(ov);
    }
    let mut p: usize = 0;
    while p < cur.len() && !str_eq(cur[p].0.as_str(), k.as_str())
        invariant
            ov == refs_view(cur@),
            p <= cur@.len(),
            forall|j: int| 0 <= j < p ==> #[trigger] ov[j].0 != k@,
        decreases cur@.len() - p,
    {
        p = p + 1;
    }
    let ghost target = to_map(ov).remove(k@);
    if p == cur.len() {
        proof {
            assert(!keys_of(ov).contains(k@)) by {
                if keys_of(ov).contains(k@) {
                    let i = choose|i: int| 0 <= i < keys_of(ov).len() && keys_of(ov)[i] == k@;
                    assert(ov[i].0 == k@);
                }
            }
            assert(to_map(ov) =~= target);
        }
        return;
    }
    cur.remove(p);
    proof {
        let pp = p as int;
        let nv = refs_view(cur@);
        let ko = keys_of(ov);
        let kn = keys_of(nv);
        assert(nv =~= ov.remove(pp));
        assert(kn =~= ko.remove(pp));
        assert forall|i: int, j: int| 0 <= i < j < kn.len() implies seq_less(kn[i], kn[j]) by {
            if i < pp && j >= pp {
                assert(kn[j] == ko[j + 1]);
            } else if i >= pp {
                assert(kn[i] == ko[i + 1] && kn[j] == ko[j + 1]);
            }
        }
        lemma_sorted_distinct(nv);
        assert forall|kk: Seq<char>| #[trigger] target.contains_key(kk) <==> kn.contains(kk) by {
            if kn.contains(kk) {
                let i = choose|i: int| 0 <= i < kn.len() && kn[i] == kk;
                if i < pp {
                    assert(ko[i] == kk);
                    assert(ov[i].0 != ov[pp].0);
                } else {
                    assert(ko[i + 1] == kk);
                    assert(ov[i + 1].0 != ov[pp].0);
                }
            }
            if ko.contains(kk) && kk != k@ {
                let i = choose|i: int| 0 <= i < ko.len() && ko[i] == kk;
                assert(i != pp);
                if i < pp {
                    assert(kn[i] == kk);
                } else {
                    assert(kn[i - 1] == kk);
                }
            }
        }
        assert forall|i: int| 0 <= i < nv.len() implies #[trigger] target[nv[i].0] == nv[i].1 by {
            if i < pp {
                assert(nv[i] == ov[i]);
                assert(ov[i].0 != ov[pp].0);
                assert(to_map(ov).contains_key(ov[i].0));
            } else {
                assert(nv[i] == ov[i + 1]);
                assert(ov[i + 1].0 != ov[pp].0);
                assert(to_map(ov).contains_key(ov[i + 1].0));
            }
        }
        lemma_same_entries(nv, target);
    }
}

/// The entities of `base` with the diff applied (see `applied`), ordered by identifier.
pub fn apply_entity_diff<'a, T>(base: &'a Vec<(String, T)>, diff: &EntityDiff<&'a (String, T)>) -> (r: Vec<&'a (String, T)>)
    ensures
        strictly_sorted(keys_of(refs_view(r@))),
        to_map(refs_view(r@)) == applied(
            to_map(entries_view(base@)),
            ids_view(diff.removed@),
            refs_view(diff.updated@),
            refs_view(diff.added@),
        ),
{
    let mut cur: Vec<&'a (String, T)> = Vec::new();
    assert(refs_view(cur@) =~= Seq::<Keyed<T>>::empty());
    assert(to_map(refs_view(cur@)) =~= Map::<Seq<char>, T>::empty());
    let ghost be = entries_view(base@);
    let mut i: usize = 0;
    while i < base.len()
        invariant
            be == entries_view(base@),
            i <= base@.len(),
            strictly_sorted(keys_of(refs_view(cur@))),
            to_map(refs_view(cur@)) == to_map(be.take(i as int)),
        decreases base@.len() - i,
    {
        put_entry(&mut cur, &base[i]);
        assert(be.take(i + 1).drop_last() =~= be.take(i as int));
        assert(be.take(i + 1).last() == keyed_view(&base@[i as int]));
        i = i + 1;
    }
    assert(be.take(base@.len() as int) =~= be);
    let ghost bm = to_map(be);
    let ghost rv = ids_view(diff.removed@);
    let mut j: usize = 0;
    while j < diff.removed.len()
        invariant
            rv == ids_view(diff.removed@),
            j <= diff.removed@.len(),
            strictly_sorted(keys_of(refs_view(cur@))),
            to_map(refs_view(cur@)) == bm.remove_keys(rv.take(j as int).to_set()),
        decreases diff.removed@.len() - j,
    {
        drop_entry(&mut cur, &diff.removed[j]);
        proof {
            assert(rv.take(j + 1) =~= rv.take(j as int).push(rv[j as int]));
            let a1 = rv.take(j + 1);
            let a0 = rv.take(j as int);
            assert forall|x: Seq<char>| #[trigger] a1.contains(x) <==> a0.contains(x) || x == rv[j as int] by {
                if a1.contains(x) {
                    let t = choose|t: int| 0 <= t < a1.len() && #[trigger] a1[t] == x;
                    if t < j {
                        assert(a0[t] == x);
                    }
                }
                if a0.contains(x) {
                    let t = choose|t: int| 0 <= t < a0.len() && #[trigger] a0[t] == x;
                    assert(a1[t] == x);
                }
                if x == rv[j as int] {
                    assert(a1[j as int] == x);
                }
            }
            assert(rv.take(j + 1).to_set() =~= rv.take(j as int).to_set().insert(rv[j as int]));
            assert(bm.remove_keys(rv.take(j + 1).to_set()) =~= bm.remove_keys(rv.take(j as int).to_set()).remove(rv[j as int]));
        }
        j = j + 1;
    }
    assert(rv.take(diff.removed@.len() as int) =~= rv);
    let ghost m1 = bm.remove_keys(rv.to_set());
    let ghost uv = refs_view(diff.updated@);
    let mut u: usize = 0;
    assert(to_map(uv.take(0)) =~= Map::<Seq<char>, T>::empty());
    assert(m1.union_prefer_right(to_map(uv.take(0))) =~= m1);
    while u < diff.updated.len()
        invariant
            uv == refs_view(diff.updated@),
            u <= diff.updated@.len(),
            strictly_sorted(keys_of(refs_view(cur@))),
            to_map(refs_view(cur@)) == m1.union_prefer_right(to_map(uv.take(u as int))),
        decreases diff.updated@.len() - u,
    {
        put_entry(&mut cur, diff.updated[u]);
        proof {
            assert(uv.take(u + 1).drop_last() =~= uv.take(u as int));
            assert(uv.take(u + 1).last() == uv[u as int]);
            assert(m1.union_prefer_right(to_map(uv.take(u + 1))) =~= m1.union_prefer_right(to_map(uv.take(u as int))).insert(uv[u as int].0, uv[u as int].1));
        }
        u = u + 1;
    }
    assert(uv.take(diff.updated@.len() as int) =~= uv);
    let ghost m2 = m1.union_prefer_right(to_map(uv));
    let ghost av = refs_view(diff.added@);
    let mut a: usize = 0;
    assert(to_map(av.take(0)) =~= Map::<Seq<char>, T>::empty());
    assert(m2.union_prefer_right(to_map(av.take(0))) =~= m2);
    while a < diff.added.len()
        invariant
            av == refs_view(diff.added@),
            a <= diff.added@.len(),
            strictly_sorted(keys_of(refs_view(cur@))),
            to_map(refs_view(cur@)) == m2.union_prefer_right(to_map(av.take(a as int))),
        decreases diff.added@.len() - a,
    {
        put_entry(&mut cur, diff.added[a]);
        proof {
            assert(av.take(a + 1).drop_last() =~= av.take(a as int));
            assert(av.take(a + 1).last() == av[a as int]);
            assert(m2.union_prefer_right(to_map(av.take(a + 1))) =~= m2.union_prefer_right(to_map(av.take(a as int))).insert(av[a as int].0, av[a as int].1));
        }
        a = a + 1;
    }
    assert(av.take(diff.added@.len() as int) =~= av);
    cur
}

/// Applying the difference from `base` to `variant` to `base` gives back `variant`: the same
/// entities under the same identifiers, where `==` on entities is equality.
pub proof fn lemma_diff_roundtrip<T: PartialEq>(
    base: Map<Seq<char>, T>,
    variant: Map<Seq<char>, T>,
    added: Seq<Keyed<T>>,
    updated: Seq<Keyed<T>>,
    removed: Seq<Seq<char>>,
)
    requires
        is_entity_diff(base, variant, added, updated, removed),
        vstd::laws_eq::obeys_concrete_eq::<T>(),
    ensures
        applied(base, removed, updated, added) == variant,
{
    reveal(vstd::laws_eq::obeys_concrete_eq);
    let r = applied(base, removed, updated, added);
    assert forall|k: Seq<char>| #[trigger] r.contains_key(k) <==> variant.contains_key(k) by {
        if removed.to_set().contains(k) {
            assert(removed.contains(k));
        }
        if base.contains_key(k) && !variant.contains_key(k) {
            assert(removed.contains(k));
            assert(removed.to_set().contains(k));
        }
    }
    assert forall|k: Seq<char>| r.contains_key(k) implies #[trigger] r[k] == variant[k] by {
        if !to_map(added).contains_key(k) && !to_map(updated).contains_key(k) {
            assert(base.contains_key(k));
            assert(base[k].eq_spec(&variant[k]));
        }
    }
    assert(r =~= variant);
}

/// The identifiers a diff names, in order: those added, those updated, those removed.
pub open spec fn diff_ids<T>(added: Seq<Keyed<T>>, updated: Seq<Keyed<T>>, removed: Seq<Seq<char>>) -> Seq<Seq<char>> {
    keys_of(added) + keys_of(updated) + removed
}

/// Whether `ids[i]` already occurs before position `i`.
pub open spec fn repeats_at(ids: Seq<Seq<char>>, i: int) -> bool {
    ids.take(i).contains(ids[i])
}

/// The difference between two entity sets names every identifier once, so the check of
/// `validate_entity_diff` finds nothing to refuse in it.
pub proof fn lemma_diff_names_each_once<T: PartialEq>(
    base: Map<Seq<char>, T>,
    variant: Map<Seq<char>, T>,
    added: Seq<Keyed<T>>,
    updated: Seq<Keyed<T>>,
    removed: Seq<Seq<char>>,
)
    requires
        is_entity_diff(base, variant, added, updated, removed),
    ensures
        forall|j: int| 0 <= j < diff_ids(added, updated, removed).len()
            ==> !#[trigger] repeats_at(diff_ids(added, updated, removed), j),
{
    let ids = diff_ids(added, updated, removed);
    let ka = keys_of(added);
    let ku = keys_of(updated);
    lemma_distinct_entries(added);
    lemma_distinct_entries(updated);
    assert forall|j: int| 0 <= j < ids.len() implies !#[trigger] repeats_at(ids, j) by {
        if repeats_at(ids, j) {
            let i = choose|i: int| 0 <= i < j && #[trigger] ids.take(j)[i] == ids[j];
            assert(ids[i] == ids[j]);
            let k = ids[j];
            if j < ka.len() {
                assert(ka[i] == ka[j]);
                assert(added[i].0 == added[j].0);
            } else if j < ka.len() + ku.len() {
                let uj = j - ka.len();
                assert(ku[uj] == k);
                assert(ku.contains(k));
                assert(to_map(updated).contains_key(k));
                if i < ka.len() {
                    assert(ka[i] == k);
                    assert(ka.contains(k));
                    assert(to_map(added).contains_key(k));
                } else {
                    let ui = i - ka.len();
                    assert(ku[ui] == ku[uj]);
                    assert(updated[ui].0 == updated[uj].0);
                }
            } else {
                let rj = j - ka.len() - ku.len();
                assert(removed[rj] == k);
                assert(removed.contains(k));
                if i < ka.len() {
                    assert(ka[i] == k);
                    assert(ka.contains(k));
                    assert(to_map(added).contains_key(k));
                } else if i < ka.len() + ku.len() {
                    let ui = i - ka.len();
                    assert(ku[ui] == k);
                    assert(ku.contains(k));
                    assert(to_map(updated).contains_key(k));
                } else {
                    let ri = i - ka.len() - ku.len();
                    assert(removed[ri] == removed[rj]);
                    assert(seq_less(removed[ri], removed[rj]));
                    lemma_seq_less_irreflexive(removed[ri]);
                }
            }
        }
    }
}

/// Position of the first identifier that already occurred, if any.
pub fn first_repeat(ids: &Vec<String>) -> (r: Option<usize>)
    ensures
        match r {
            Some(i) => i < ids@.len() && repeats_at(ids_view(ids@), i as int)
                && forall|j: int| 0 <= j < i ==> !#[trigger] repeats_at(ids_view(ids@), j),
            None => forall|j: int| 0 <= j < ids@.len() ==> !#[trigger] repeats_at(ids_view(ids@), j),
        },
{
    let ghost iv = ids_view(ids@);
    let mut i: usize = 0;
    while i < ids.len()
        invariant
            iv == ids_view(ids@),
            i <= ids@.len(),
            forall|j: int| 0 <= j < i ==> !#[trigger] repeats_at(iv, j),
        decreases ids@.len() - i,
    {
        let mut j: usize = 0;
        while j < i
            invariant
                iv == ids_view(ids@),
                j <= i < ids@.len(),
                forall|t: int| 0 <= t < j ==> iv[t] != iv[i as int],
                forall|t: int| 0 <= t < i ==> !#[trigger] repeats_at(iv, t),
            decreases i - j,
        {
            if str_eq(ids[j].as_str(), ids[i].as_str()) {
                proof {
                    assert(iv.take(i as int)[j as int] == iv[i as int]);
                    assert(iv.take(i as int).contains(iv[i as int]));
                }
                return Some(i);
            }
            j = j + 1;
        }
        proof {
            assert(!iv.take(i as int).contains(iv[i as int])) by {
                if iv.take(i as int).contains(iv[i as int]) {
                    let t = choose|t: int| 0 <= t < i && #[trigger] iv.take(i as int)[t] == iv[i as int];
                    assert(iv[t] == iv[i as int]);
                }
            }
        }
        i = i + 1;
    }
    None
}

/// The identifier named twice in the diff (over its added, updated and removed entries),
/// at the first place it repeats; `None` when each is named once.
pub fn validate_entity_diff<'a, T>(diff: &EntityDiff<&'a (String, T)>) -> (r: Option<String>)
    ensures
        match r {
            Some(id) => exists|i: int| 0 <= i < diff_ids(refs_view(diff.added@), refs_view(diff.updated@), ids_view(diff.removed@)).len()
                && #[trigger] repeats_at(diff_ids(refs_view(diff.added@), refs_view(diff.updated@), ids_view(diff.removed@)), i)
                && diff_ids(refs_view(diff.added@), refs_view(diff.updated@), ids_view(diff.removed@))[i] == id@
                && forall|j: int| 0 <= j < i ==> !#[trigger] repeats_at(diff_ids(refs_view(diff.added@), refs_view(diff.updated@), ids_view(diff.removed@)), j),
            None => forall|j: int| 0 <= j < diff_ids(refs_view(diff.added@), refs_view(diff.updated@), ids_view(diff.removed@)).len()
                ==> !#[trigger] repeats_at(diff_ids(refs_view(diff.added@), refs_view(diff.updated@), ids_view(diff.removed@)), j),
        },
{
    let ghost all = diff_ids(refs_view(diff.added@), refs_view(diff.updated@), ids_view(diff.removed@));
    let mut ids: Vec<String> = Vec::new();
    let mut a: usize = 0;
    while a < diff.added.len()
        invariant
            a <= diff.added@.len(),
            ids_view(ids@) == keys_of(refs_view(diff.added@)).take(a as int),
        decreases diff.added@.len() - a,
    {
        ids.push(diff.added[a].0.clone());
        assert(keys_of(refs_view(diff.added@)).take(a + 1) =~= keys_of(refs_view(diff.added@)).take(a as int).push(diff.added@[a as int].0@));
        assert(ids_view(ids@) =~= keys_of(refs_view(diff.added@)).take(a + 1));
        a = a + 1;
    }
    let ghost ka = keys_of(refs_view(diff.added@));
    assert(ka.take(diff.added@.len() as int) =~= ka);
    let mut u: usize = 0;
    while u < diff.updated.len()
        invariant
            ka == keys_of(refs_view(diff.added@)),
            u <= diff.updated@.len(),
            ids_view(ids@) == ka + keys_of(refs_view(diff.updated@)).take(u as int),
        decreases diff.updated@.len() - u,
    {
        let ghost before = ids_view(ids@);
        ids.push(diff.updated[u].0.clone());
        assert(ids_view(ids@) =~= before.push(diff.updated@[u as int].0@));
        assert(keys_of(refs_view(diff.updated@)).take(u + 1) =~= keys_of(refs_view(diff.updated@)).take(u as int).push(diff.updated@[u as int].0@));
        assert(ids_view(ids@) =~= ka + keys_of(refs_view(diff.updated@)).take(u + 1));
        u = u + 1;
    }
    let ghost ku = keys_of(refs_view(diff.updated@));
    assert(ku.take(diff.updated@.len() as int) =~= ku);
    let mut m: usize = 0;
    while m < diff.removed.len()
        invariant
            ka == keys_of(refs_view(diff.added@)),
            ku == keys_of(refs_view(diff.updated@)),
            m <= diff.removed@.len(),
            ids_view(ids@) == ka + ku + ids_view(diff.removed@).take(m as int),
        decreases diff.removed@.len() - m,
    {
        let ghost before = ids_view(ids@);
        ids.push(diff.removed[m].clone());
        assert(ids_view(ids@) =~= before.push(diff.removed@[m as int]@));
        assert(ids_view(diff.removed@).take(m + 1) =~= ids_view(diff.removed@).take(m as int).push(diff.removed@[m as int]@));
        assert(ids_view(ids@) =~= ka + ku + ids_view(diff.removed@).take(m + 1));
        m = m + 1;
    }
    assert(ids_view(diff.removed@).take(diff.removed@.len() as int) =~= ids_view(diff.removed@));
    assert(ids_view(ids@) == all);
    match first_repeat(&ids) {
        Some(i) => {
            let id = ids[i].clone();
            assert(all[i as int] == id@);
            Some(id)
        },
        None => None,
    }
}

// ---------------------------------------------------------------------------
// Whole networks
// ---------------------------------------------------------------------------

/// A network as its nodes and its pipes, each keyed by identifier.
pub struct NetworkSnapshot<N, P> {
    pub nodes: Vec<(String, N)>,
    pub pipes: Vec<(String, P)>,
}

/// The changes to the nodes and to the pipes of a network.
pub struct NetworkDiff<'a, N, P> {
    pub nodes: EntityDiff<&'a (String, N)>,
    pub pipes: EntityDiff<&'a (String, P)>,
}

pub open spec fn node_map<N, P>(s: NetworkSnapshot<N, P>) -> Map<Seq<char>, N> {
    to_map(entries_view(s.nodes@))
}

pub open spec fn pipe_map<N, P>(s: NetworkSnapshot<N, P>) -> Map<Seq<char>, P> {
    to_map(entries_view(s.pipes@))
}

/// Whether `d` is the difference from `base` to `variant`, for the nodes and for the pipes
/// (see `is_entity_diff`).
pub open spec fn is_network_diff<N: PartialEq, P: PartialEq>(
    base: NetworkSnapshot<N, P>,
    variant: NetworkSnapshot<N, P>,
    d: NetworkDiff<N, P>,
) -> bool {
    &&& is_entity_diff(node_map(base), node_map(variant), refs_view(d.nodes.added@), refs_view(d.nodes.updated@), ids_view(d.nodes.removed@))
    &&& is_entity_diff(pipe_map(base), pipe_map(variant), refs_view(d.pipes.added@), refs_view(d.pipes.updated@), ids_view(d.pipes.removed@))
}

/// The nodes and pipes of `base` after the diff (see `applied`).
pub open spec fn network_applied<N, P>(base: NetworkSnapshot<N, P>, d: NetworkDiff<N, P>) -> (Map<Seq<char>, N>, Map<Seq<char>, P>) {
    (
        applied(node_map(base), ids_view(d.nodes.removed@), refs_view(d.nodes.updated@), refs_view(d.nodes.added@)),
        applied(pipe_map(base), ids_view(d.pipes.removed@), refs_view(d.pipes.updated@), refs_view(d.pipes.added@)),
    )
}

/// The difference from `base` to `variant`, for the nodes and for the pipes.
pub fn compute_snapshot_diff<'a, N: PartialEq, P: PartialEq>(
    base: &'a NetworkSnapshot<N, P>,
    variant: &'a NetworkSnapshot<N, P>,
) -> (d: NetworkDiff<'a, N, P>)
    ensures
        is_network_diff(*base, *variant, d),
{
    NetworkDiff { nodes: compute_entity_diff(&base.nodes, &variant.nodes), pipes: compute_entity_diff(&base.pipes, &variant.pipes) }
}

/// The nodes and pipes of `base` with the diff applied (see `network_applied`), each
/// ordered by identifier.
pub fn apply_snapshot_diff<'a, N, P>(
    base: &'a NetworkSnapshot<N, P>,
    d: &NetworkDiff<'a, N, P>,
) -> (r: (Vec<&'a (String, N)>, Vec<&'a (String, P)>))
    ensures
        strictly_sorted(keys_of(refs_view(r.0@))),
        strictly_sorted(keys_of(refs_view(r.1@))),
        (to_map(refs_view(r.0@)), to_map(refs_view(r.1@))) == network_applied(*base, *d),
{
    let nodes = apply_entity_diff(&base.nodes, &d.nodes);
    let pipes = apply_entity_diff(&base.pipes, &d.pipes);
    (nodes, pipes)
}

/// The difference between two equal entity sets changes nothing.
pub proof fn lemma_diff_of_equal_is_empty<T: PartialEq>(
    m: Map<Seq<char>, T>,
    added: Seq<Keyed<T>>,
    updated: Seq<Keyed<T>>,
    removed: Seq<Seq<char>>,
)
    requires
        is_entity_diff(m, m, added, updated, removed),
        vstd::laws_eq::obeys_concrete_eq::<T>(),
    ensures
        added.len() == 0,
        updated.len() == 0,
        removed.len() == 0,
{
    reveal(vstd::laws_eq::obeys_concrete_eq);
    if added.len() > 0 {
        lemma_to_map_contains(added, added[0].0);
    }
    if updated.len() > 0 {
        lemma_to_map_contains(updated, updated[0].0);
        let k = updated[0].0;
        assert(m[k].eq_spec(&m[k]));
    }
    if removed.len() > 0 {
        assert(removed.contains(removed[0]));
    }
}

/// Applying the difference from `base` to `variant` to `base` gives back the nodes and the
/// pipes of `variant`, and the difference from `variant` to that result changes nothing,
/// where `==` on nodes and on pipes is equality.
pub proof fn lemma_network_diff_roundtrip<N: PartialEq, P: PartialEq>(
    base: NetworkSnapshot<N, P>,
    variant: NetworkSnapshot<N, P>,
    d: NetworkDiff<N, P>,
    again: NetworkDiff<N, P>,
)
    requires
        is_network_diff(base, variant, d),
        vstd::laws_eq::obeys_concrete_eq::<N>(),
        vstd::laws_eq::obeys_concrete_eq::<P>(),
        is_entity_diff(node_map(variant), network_applied(base, d).0, refs_view(again.nodes.added@), refs_view(again.nodes.updated@), ids_view(again.nodes.removed@)),
        is_entity_diff(pipe_map(variant), network_applied(base, d).1, refs_view(again.pipes.added@), refs_view(again.pipes.updated@), ids_view(again.pipes.removed@)),
    ensures
        network_applied(base, d) == (node_map(variant), pipe_map(variant)),
        again.nodes.added@.len() == 0 && again.nodes.updated@.len() == 0 && again.nodes.removed@.len() == 0,
        again.pipes.added@.len() == 0 && again.pipes.updated@.len() == 0 && again.pipes.removed@.len() == 0,
{
    lemma_diff_roundtrip(node_map(base), node_map(variant), refs_view(d.nodes.added@), refs_view(d.nodes.updated@), ids_view(d.nodes.removed@));
    lemma_diff_roundtrip(pipe_map(base), pipe_map(variant), refs_view(d.pipes.added@), refs_view(d.pipes.updated@), ids_view(d.pipes.removed@));
    lemma_diff_of_equal_is_empty(node_map(variant), refs_view(again.nodes.added@), refs_view(again.nodes.updated@), ids_view(again.nodes.removed@));
    lemma_diff_of_equal_is_empty(pipe_map(variant), refs_view(again.pipes.added@), refs_view(again.pipes.updated@), ids_view(again.pipes.removed@));
}

} // verus!
