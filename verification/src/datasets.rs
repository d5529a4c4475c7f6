//! GasLib datasets found among file names: `GasLib-<digits>.net`, ordered by number.

use vstd::prelude::*;

use crate::boundary::has_prefix;
use crate::decimal::{all_digits, bounded_digits, digits_value, digits_within, is_digit};
use crate::solution::contains_text;
use crate::text::{chars_of, string_of_range};

verus! {

pub open spec fn has_suffix(s: Seq<char>, t: Seq<char>) -> bool {
    s.len() >= t.len() && s.skip(s.len() - t.len()) == t
}

/// `s` with every trailing `.net` removed, as `str::trim_end_matches` does.
pub open spec fn strip_net(s: Seq<char>) -> Seq<char>
    decreases s.len(),
{
    if s.len() >= 4 && has_suffix(s, ".net"@) {
        strip_net(s.take(s.len() - 4))
    } else {
        s
    }
}

/// The dataset a file name names: `GasLib-<digits>.net` (no `-v` version tag), giving the
/// name without its `.net` endings.
pub open spec fn dataset_of(name: Seq<char>) -> Option<Seq<char>> {
    if !has_prefix(name, "GasLib-"@) || !has_suffix(name, ".net"@) || contains_text(name, "-v"@) {
        None
    } else {
        let id = strip_net(name);
        if has_prefix(id, "GasLib-"@) && all_digits(id.skip(7)) {
            Some(id)
        } else {
            None
        }
    }
}

/// The number of a dataset, or `u32::MAX` when it does not read as a `u32`.
pub open spec fn dataset_number(id: Seq<char>) -> u32 {
    let d = id.skip(7);
    if digits_within(d, u32::MAX as int) {
        digits_value(d) as u32
    } else {
        u32::MAX
    }
}

/// `x` inserted after every element whose number is not above its own.
pub open spec fn insert_by_number(s: Seq<Seq<char>>, x: Seq<char>) -> Seq<Seq<char>>
    decreases s.len(),
{
    if s.len() == 0 || dataset_number(s.last()) <= dataset_number(x) {
        s.push(x)
    } else {
        insert_by_number(s.drop_last(), x).push(s.last())
    }
}

/// The datasets of `names`, in order, stably sorted by number.
pub open spec fn sorted_datasets(names: Seq<Seq<char>>) -> Seq<Seq<char>>
    decreases names.len(),
{
    if names.len() == 0 {
        Seq::empty()
    } else {
        let r = sorted_datasets(names.drop_last());
        match dataset_of(names.last()) {
            Some(id) => insert_by_number(r, id),
            None => r,
        }
    }
}

/// `s` without repeats of the element just before (as `Vec::dedup`).
pub open spec fn dedup(s: Seq<Seq<char>>) -> Seq<Seq<char>>
    decreases s.len(),
{
    if s.len() == 0 {
        s
    } else {
        let r = dedup(s.drop_last());
        if r.len() > 0 && r.last() == s.last() {
            r
        } else {
            r.push(s.last())
        }
    }
}

pub open spec fn names_view(v: Seq<String>) -> Seq<Seq<char>> {
    v.map_values(|s: String| s@)
}

#[verifier::loop_isolation(false)]
fn dataset_of_exec(name: &String) -> (r: Option<String>)
    ensures
        match r {
            Some(id) => dataset_of(name@) == Some(id@),
            None => dataset_of(name@) is None,
        },
{
    proof {
        reveal_strlit("GasLib-");
        reveal_strlit(".net");
        reveal_strlit("-v");
    }
    let v = chars_of(name.as_str());
    assert(v@ == name@);
    assert(v@.take(v@.len() as int) =~= v@);
    if !prefix_ok(&v, "GasLib-") || !suffix_ok(&v, v.len(), ".net") || crate::solution::contains_text_exec(&v, "-v") {
        return None;
    }
    let mut end = v.len();
    while end >= 4 && suffix_ok(&v, end, ".net")
        invariant
            end <= v@.len(),
            strip_net(v@) == strip_net(v@.take(end as int)),
        decreases end,
    {
        proof {
            let t = v@.take(end as int);
            assert(t.take(t.len() - 4) =~= v@.take(end - 4));
        }
        end = end - 4;
    }
    proof {
        let t = v@.take(end as int);
        assert(!(t.len() >= 4 && has_suffix(t, ".net"@)));
        assert(strip_net(t) == t);
    }
    let idv = crate::decimal::sub_vec(&v, 0, end);
    assert(idv@ == strip_net(v@));
    if end < 7 || !prefix_ok(&idv, "GasLib-") {
        return None;
    }
    let mut i: usize = 7;
    while i < end
        invariant
            7 <= i <= end,
            idv@.len() == end,
            forall|j: int| 0 <= j < i - 7 ==> is_digit(#[trigger] idv@.skip(7)[j]),
        decreases end - i,
    {
        if !('0' <= idv[i] && idv[i] <= '9') {
            proof {
                assert(idv@.skip(7)[i - 7] == idv@[i as int]);
            }
            return None;
        }
        assert(idv@.skip(7)[i - 7] == idv@[i as int]);
        i = i + 1;
    }
    let id = string_of_range(&idv, 0, end);
    assert(idv@.subrange(0, end as int) =~= idv@);
    Some(id)
}

fn prefix_ok(v: &Vec<char>, p: &str) -> (r: bool)
    ensures
        r == has_prefix(v@, p@),
{
    let pv = chars_of(p);
    if pv.len() > v.len() {
        return false;
    }
    let mut i: usize = 0;
    while i < pv.len()
        invariant
            pv@ == p@,
            pv@.len() <= v@.len(),
            i <= pv@.len(),
            forall|j: int| 0 <= j < i ==> v@[j] == pv@[j],
        decreases pv@.len() - i,
    {
        if v[i] != pv[i] {
            assert(v@.take(pv@.len() as int)[i as int] != pv@[i as int]);
            assert(v@.take(pv@.len() as int) != pv@);
            return false;
        }
        i = i + 1;
    }
    assert(v@.take(pv@.len() as int) =~= pv@);
    true
}

/// Whether `v[..end]` ends with `t`.
fn suffix_ok(v: &Vec<char>, end: usize, t: &str) -> (r: bool)
    requires
        end <= v@.len(),
    ensures
        r == has_suffix(v@.take(end as int), t@),
{
    let tv = chars_of(t);
    if tv.len() > end {
        return false;
    }
    let start = end - tv.len();
    let ghost s = v@.take(end as int);
    let mut i: usize = 0;
    while i < tv.len()
        invariant
            tv@ == t@,
            s == v@.take(end as int),
            end <= v@.len(),
            start + tv@.len() == end,
            i <= tv@.len(),
            forall|j: int| 0 <= j < i ==> v@[start + j] == tv@[j],
        decreases tv@.len() - i,
    {
        if v[start + i] != tv[i] {
            assert(s.skip(start as int)[i as int] != tv@[i as int]);
            assert(s.skip(start as int) != tv@);
            return false;
        }
        i = i + 1;
    }
    assert(s.skip(start as int) =~= tv@);
    true
}

fn dataset_number_exec(id: &String) -> (r: u32)
    requires
        id@.len() >= 7,
    ensures
        r == dataset_number(id@),
{
    let v = chars_of(id.as_str());
    assert(v@.subrange(7, v@.len() as int) =~= v@.skip(7));
    match bounded_digits(&v, 7, v.len(), u32::MAX as u64) {
        Some(n) => n as u32,
        None => u32::MAX,
    }
}

/// The datasets among the file names `names` (see `dataset_of`), ordered by number
/// (stably), without consecutive repeats.
pub fn dataset_ids(names: &Vec<String>) -> (r: Vec<String>)
    ensures
        names_view(r@) == dedup(sorted_datasets(names_view(names@))),
{
    let ghost nv = names_view(names@);
    let mut sorted: Vec<String> = Vec::new();
    let mut i: usize = 0;
    assert(names_view(sorted@) =~= Seq::<Seq<char>>::empty());
    while i < names.len()
        invariant
            nv == names_view(names@),
            i <= names@.len(),
            names_view(sorted@) == sorted_datasets(nv.take(i as int)),
            forall|j: int| 0 <= j < sorted@.len() ==> (#[trigger] sorted@[j])@.len() >= 7,
        decreases names@.len() - i,
    {
        assert(nv.take(i + 1).drop_last() =~= nv.take(i as int));
        assert(nv.take(i + 1).last() == names@[i as int]@);
        match dataset_of_exec(&names[i]) {
            Some(id) => {
                proof {
                    reveal_strlit("GasLib-");
                }
                let ghost s = names_view(sorted@);
                let key = dataset_number_exec(&id);
                let mut p = sorted.len();
                assert(s.take(p as int) =~= s);
                assert(insert_by_number(s, id@) + s.skip(p as int) =~= insert_by_number(s, id@));
                while p > 0 && key < dataset_number_exec(&sorted[p - 1])
                    invariant
                        s == names_view(sorted@),
                        p <= sorted@.len(),
                        key == dataset_number(id@),
                        forall|j: int| 0 <= j < sorted@.len() ==> (#[trigger] sorted@[j])@.len() >= 7,
                        insert_by_number(s, id@) == insert_by_number(s.take(p as int), id@) + s.skip(p as int),
                    decreases p,
                {
                    proof {
                        let t = s.take(p as int);
                        assert(t.last() == s[p - 1]);
                        assert(t.drop_last() =~= s.take(p - 1));
                        assert(insert_by_number(t, id@) == insert_by_number(s.take(p - 1), id@).push(s[p - 1]));
                        assert(insert_by_number(s.take(p - 1), id@).push(s[p - 1]) + s.skip(p as int)
                            =~= insert_by_number(s.take(p - 1), id@) + s.skip(p - 1));
                    }
                    p = p - 1;
                }
                proof {
                    let t = s.take(p as int);
                    if p > 0 {
                        assert(t.last() == s[p - 1]);
                    }
                    assert(insert_by_number(t, id@) == t.push(id@));
                }
                let ghost idv = id@;
                let ghost before = sorted@;
                sorted.insert(p, id);
                assert(names_view(sorted@) =~= s.take(p as int).push(idv) + s.skip(p as int));
                assert forall|j: int| 0 <= j < sorted@.len() implies (#[trigger] sorted@[j])@.len() >= 7 by {
                    if j < p {
                        assert(sorted@[j] == before[j]);
                    } else if j > p {
                        assert(sorted@[j] == before[j - 1]);
                    }
                }
            },
            None => {},
        }
        i = i + 1;
    }
    assert(nv.take(names@.len() as int) =~= nv);
    let ghost sv = names_view(sorted@);
    let mut out: Vec<String> = Vec::new();
    let mut k: usize = 0;
    assert(names_view(out@) =~= dedup(sv.take(0)));
    while k < sorted.len()
        invariant
            sv == names_view(sorted@),
            k <= sorted@.len(),
            names_view(out@) == dedup(sv.take(k as int)),
        decreases sorted@.len() - k,
    {
        assert(sv.take(k + 1).drop_last() =~= sv.take(k as int));
        assert(sv.take(k + 1).last() == sorted@[k as int]@);
        let n = out.len();
        let same = n > 0 && crate::text::str_eq(out[n - 1].as_str(), sorted[k].as_str());
        if !same {
            let ghost before = names_view(out@);
            let c = sorted[k].clone();
            out.push(c);
            assert(names_view(out@) =~= before.push(c@));
        }
        k = k + 1;
    }
    assert(sv.take(sorted@.len() as int) =~= sv);
    out
}

} // verus!
