//! Paths to attributes of imported features: dot-separated keys, each optionally followed
//! by one `[index]`, such as `properties.geometry[0]`.

use vstd::prelude::*;

use crate::decimal::{parse_usize, spec_parse_usize};
use crate::text::{chars_of, string_of_range};

verus! {

/// One step of a path: a key of an object, or a position in an array.
#[derive(Debug, PartialEq, Eq)]
pub enum PathStep<S> {
    Key(S),
    Index(usize),
}

pub open spec fn step_view(s: PathStep<String>) -> PathStep<Seq<char>> {
    match s {
        PathStep::Key(k) => PathStep::Key(k@),
        PathStep::Index(i) => PathStep::Index(i),
    }
}

pub open spec fn steps_view(v: Seq<PathStep<String>>) -> Seq<PathStep<Seq<char>>> {
    v.map_values(|s: PathStep<String>| step_view(s))
}

/// The pieces of `s` between the dots, as `str::split('.')` gives them.
pub open spec fn split_dots(s: Seq<char>) -> Seq<Seq<char>>
    decreases s.len(),
{
    if s.len() == 0 {
        seq![Seq::empty()]
    } else {
        let r = split_dots(s.drop_last());
        if s.last() == '.' {
            r.push(Seq::empty())
        } else {
            r.update(r.len() - 1, r.last().push(s.last()))
        }
    }
}

proof fn lemma_split_dots_nonempty(s: Seq<char>)
    ensures
        split_dots(s).len() >= 1,
    decreases s.len(),
{
    if s.len() > 0 {
        lemma_split_dots_nonempty(s.drop_last());
    }
}

/// The position of the first `[` in `s`.
pub open spec fn first_bracket(s: Seq<char>) -> Option<int>
    decreases s.len(),
{
    if s.len() == 0 {
        None
    } else {
        match first_bracket(s.drop_last()) {
            Some(b) => Some(b),
            None => if s.last() == '[' {
                Some(s.len() - 1)
            } else {
                None
            },
        }
    }
}

/// `s` without its trailing `]` characters.
pub open spec fn trim_closing(s: Seq<char>) -> Seq<char>
    decreases s.len(),
{
    if s.len() > 0 && s.last() == ']' {
        trim_closing(s.drop_last())
    } else {
        s
    }
}

/// The steps of one piece: a key; or, with a `[`, the key before it (when not empty) and
/// the index after it, read as `usize::from_str` reads the text up to the trailing `]`s.
pub open spec fn segment_steps(seg: Seq<char>) -> Option<Seq<PathStep<Seq<char>>>> {
    match first_bracket(seg) {
        None => Some(seq![PathStep::Key(seg)]),
        Some(b) => match spec_parse_usize(trim_closing(seg.skip(b + 1))) {
            None => None,
            Some(i) => if b > 0 {
                Some(seq![PathStep::Key(seg.take(b)), PathStep::Index(i as usize)])
            } else {
                Some(seq![PathStep::Index(i as usize)])
            },
        },
    }
}

/// The steps of the first `n` pieces, or `None` when one of them has an index that is not
/// a number.
pub open spec fn segments_steps(segs: Seq<Seq<char>>, n: int) -> Option<Seq<PathStep<Seq<char>>>>
    decreases n,
{
    if n <= 0 {
        Some(Seq::empty())
    } else {
        match segments_steps(segs, n - 1) {
            None => None,
            Some(acc) => match segment_steps(segs[n - 1]) {
                None => None,
                Some(st) => Some(acc + st),
            },
        }
    }
}

/// The steps of a whole path.
pub open spec fn path_steps(path: Seq<char>) -> Option<Seq<PathStep<Seq<char>>>> {
    segments_steps(split_dots(path), split_dots(path).len() as int)
}

proof fn lemma_none_stays(segs: Seq<Seq<char>>, n: int, m: int)
    requires
        0 <= n <= m,
        segments_steps(segs, n) is None,
    ensures
        segments_steps(segs, m) is None,
    decreases m - n,
{
    if m > n {
        lemma_none_stays(segs, n, m - 1);
    }
}

/// The steps of the piece `v[a..b]`.
fn segment_of(v: &Vec<char>, a: usize, b: usize) -> (r: Option<Vec<PathStep<String>>>)
    requires
        a <= b <= v@.len(),
    ensures
        match r {
            Some(st) => segment_steps(v@.subrange(a as int, b as int)) == Some(steps_view(st@)),
            None => segment_steps(v@.subrange(a as int, b as int)) is None,
        },
{
    let ghost seg = v@.subrange(a as int, b as int);
    let mut p = a;
    while p < b && v[p] != '['
        invariant
            a <= p <= b <= v@.len(),
            forall|q: int| a <= q < p ==> v@[q] != '[',
        decreases b - p,
    {
        p = p + 1;
    }
    proof {
        assert forall|q: int| 0 <= q <= p - a implies first_bracket(#[trigger] seg.take(q)) is None by {
            lemma_no_bracket(seg, q);
        }
    }
    if p == b {
        proof {
            assert(seg.take(seg.len() as int) =~= seg);
        }
        let mut out: Vec<PathStep<String>> = Vec::new();
        out.push(PathStep::Key(string_of_range(v, a, b)));
        assert(steps_view(out@) =~= seq![PathStep::Key(seg)]);
        return Some(out);
    }
    proof {
        lemma_bracket_at(seg, (p - a) as int);
    }
    let mut e = b;
    assert(seg.skip(p - a + 1) =~= v@.subrange(p + 1, b as int));
    while e > p + 1 && v[e - 1] == ']'
        invariant
            a <= p < b <= v@.len(),
            p + 1 <= e <= b,
            trim_closing(seg.skip(p - a + 1)) == trim_closing(v@.subrange(p + 1, e as int)),
        decreases e,
    {
        proof {
            let t = v@.subrange(p + 1, e as int);
            assert(t.last() == ']');
            assert(t.drop_last() =~= v@.subrange(p + 1, e - 1));
        }
        e = e - 1;
    }
    proof {
        let t = v@.subrange(p + 1, e as int);
        assert(t.len() == 0 || t.last() != ']');
        assert(trim_closing(t) == t);
        assert(seg.skip(p - a + 1) =~= v@.subrange(p + 1, b as int));
    }
    let digits = sub_chars(v, p + 1, e);
    match parse_usize(&digits) {
        None => None,
        Some(i) => {
            let mut out: Vec<PathStep<String>> = Vec::new();
            if p > a {
                out.push(PathStep::Key(string_of_range(v, a, p)));
                out.push(PathStep::Index(i));
                proof {
                    assert(seg.take(p - a) =~= v@.subrange(a as int, p as int));
                    assert(steps_view(out@) =~= seq![PathStep::Key(seg.take(p - a)), PathStep::Index(i)]);
                }
            } else {
                out.push(PathStep::Index(i));
                assert(steps_view(out@) =~= seq![PathStep::<Seq<char>>::Index(i)]);
            }
            Some(out)
        },
    }
}

proof fn lemma_no_bracket(s: Seq<char>, q: int)
    requires
        0 <= q <= s.len(),
        forall|j: int| 0 <= j < q ==> s[j] != '[',
    ensures
        first_bracket(s.take(q)) is None,
    decreases q,
{
    if q > 0 {
        assert(s.take(q).drop_last() =~= s.take(q - 1));
        lemma_no_bracket(s, q - 1);
    }
}

proof fn lemma_bracket_at(s: Seq<char>, k: int)
    requires
        0 <= k < s.len(),
        s[k] == '[',
        forall|j: int| 0 <= j < k ==> s[j] != '[',
    ensures
        first_bracket(s) == Some(k),
{
    lemma_bracket_prefix(s, k, s.len() as int);
    assert(s.take(s.len() as int) =~= s);
}

proof fn lemma_bracket_prefix(s: Seq<char>, k: int, n: int)
    requires
        0 <= k < n <= s.len(),
        s[k] == '[',
        forall|j: int| 0 <= j < k ==> s[j] != '[',
    ensures
        first_bracket(s.take(n)) == Some(k),
    decreases n,
{
    assert(s.take(n).drop_last() =~= s.take(n - 1));
    if n - 1 > k {
        lemma_bracket_prefix(s, k, n - 1);
    } else {
        lemma_no_bracket(s, k);
    }
}

fn sub_chars(v: &Vec<char>, a: usize, b: usize) -> (r: Vec<char>)
    requires
        a <= b <= v@.len(),
    ensures
        r@ == v@.subrange(a as int, b as int),
{
    let mut out: Vec<char> = Vec::new();
    let mut i = a;
    while i < b
        invariant
            a <= i <= b <= v@.len(),
            out@ == v@.subrange(a as int, i as int),
        decreases b - i,
    {
        out.push(v[i]);
        assert(v@.subrange(a as int, i + 1) =~= v@.subrange(a as int, i as int).push(v@[i as int]));
        i = i + 1;
    }
    out
}

pub open spec fn pieces<T>(v: Seq<T>, bounds: Seq<(usize, usize)>) -> Seq<Seq<T>> {
    bounds.map_values(|b: (usize, usize)| v.subrange(b.0 as int, b.1 as int))
}

/// Start and end of each piece of `v` between the dots.
fn dot_bounds(v: &Vec<char>) -> (r: Vec<(usize, usize)>)
    ensures
        pieces(v@, r@) == split_dots(v@),
        forall|q: int| 0 <= q < r@.len() ==> (#[trigger] r@[q]).0 <= r@[q].1 <= v@.len(),
{
    let mut bounds: Vec<(usize, usize)> = Vec::new();
    let mut start: usize = 0;
    let mut i: usize = 0;
    assert(v@.take(0) =~= Seq::<char>::empty());
    assert(v@.subrange(0, 0) =~= Seq::<char>::empty());
    assert(pieces(v@, bounds@) =~= Seq::<Seq<char>>::empty());
    assert(split_dots(v@.take(0)) =~= pieces(v@, bounds@).push(v@.subrange(0, 0)));
    while i < v.len()
        invariant
            start <= i <= v@.len(),
            split_dots(v@.take(i as int)) == pieces(v@, bounds@).push(v@.subrange(start as int, i as int)),
            forall|q: int| 0 <= q < bounds@.len() ==> (#[trigger] bounds@[q]).0 <= bounds@[q].1 <= v@.len(),
        decreases v@.len() - i,
    {
        proof {
            assert(v@.take(i + 1).drop_last() =~= v@.take(i as int));
            assert(v@.take(i + 1).last() == v@[i as int]);
        }
        if v[i] == '.' {
            let ghost before = pieces(v@, bounds@);
            bounds.push((start, i));
            proof {
                assert(pieces(v@, bounds@) =~= before.push(v@.subrange(start as int, i as int)));
                assert(v@.subrange(i + 1, i + 1) =~= Seq::<char>::empty());
                assert(split_dots(v@.take(i + 1)) == split_dots(v@.take(i as int)).push(Seq::<char>::empty()));
                assert(split_dots(v@.take(i + 1)) =~= pieces(v@, bounds@).push(v@.subrange(i + 1, i + 1)));
            }
            start = i + 1;
        } else {
            proof {
                assert(v@.subrange(start as int, i + 1) =~= v@.subrange(start as int, i as int).push(v@[i as int]));
                assert(split_dots(v@.take(i + 1)) =~= pieces(v@, bounds@).push(v@.subrange(start as int, i + 1)));
            }
        }
        i = i + 1;
    }
    assert(v@.take(v@.len() as int) =~= v@);
    let ghost before = pieces(v@, bounds@);
    bounds.push((start, v.len()));
    assert(pieces(v@, bounds@) =~= before.push(v@.subrange(start as int, v@.len() as int)));
    bounds
}

/// The steps of `path` (see `path_steps`), or `None` when an index is not a number.
pub fn field_path_steps(path: &str) -> (r: Option<Vec<PathStep<String>>>)
    ensures
        match r {
            Some(st) => path_steps(path@) == Some(steps_view(st@)),
            None => path_steps(path@) is None,
        },
{
    let v = chars_of(path);
    let bounds = dot_bounds(&v);
    let ghost segs = split_dots(v@);
    let mut steps: Vec<PathStep<String>> = Vec::new();
    let mut q: usize = 0;
    while q < bounds.len()
        invariant
            v@ == path@,
            segs == split_dots(v@),
            pieces(v@, bounds@) == segs,
            forall|z: int| 0 <= z < bounds@.len() ==> (#[trigger] bounds@[z]).0 <= bounds@[z].1 <= v@.len(),
            q <= bounds@.len(),
            segments_steps(segs, q as int) == Some(steps_view(steps@)),
        decreases bounds@.len() - q,
    {
        let (a, b) = bounds[q];
        proof {
            assert(segs[q as int] == v@.subrange(a as int, b as int));
        }
        match segment_of(&v, a, b) {
            None => {
                proof {
                    lemma_none_stays(segs, q + 1, segs.len() as int);
                }
                return None;
            },
            Some(st) => {
                let ghost before = steps_view(steps@);
                let mut st = st;
                let ghost sv = steps_view(st@);
                steps.append(&mut st);
                assert(steps_view(steps@) =~= before + sv);
            },
        }
        q = q + 1;
    }
    Some(steps)
}

proof fn lemma_segments_steps_len(segs: Seq<Seq<char>>, n: int)
    requires
        n >= 0,
    ensures
        segments_steps(segs, n) matches Some(st) ==> st.len() >= n,
    decreases n,
{
    if n > 0 {
        lemma_segments_steps_len(segs, n - 1);
    }
}

/// A path that reads has at least one step.
pub proof fn lemma_path_steps_nonempty(path: Seq<char>)
    ensures
        path_steps(path) matches Some(st) ==> st.len() >= 1,
{
    lemma_split_dots_nonempty(path);
    lemma_segments_steps_len(split_dots(path), split_dots(path).len() as int);
}

} // verus!
