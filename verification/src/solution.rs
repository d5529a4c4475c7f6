//! Reference solutions (node pressures and pipe flows) read from text or from XML.

use vstd::prelude::*;

use crate::decimal::{float_literal_ok, is_float_literal};
use crate::diff::{distinct_keys, keys_of, lemma_distinct_entries, lemma_same_entries, to_map, Keyed};
use crate::text::{ascii_lower, chars_of, eq_lit, lower_vec, str_eq, string_of_range, trim, trim_bounds};
use crate::xml::{
    attrs_view, is_terminal, local_name, next_event, reader_events, spec_local_name,
    unescape_value, well_ended, xml_events, xml_reader, xml_unescaped, AttrView, XmlEvent,
    XmlEventView, XmlTag,
};

verus! {

/// Node pressures and pipe flows by identifier; each identifier once, with the value
/// literal read (one that `f64::from_str` accepts).
#[derive(Debug, Clone, PartialEq, Eq)]
pub struct ReferenceSolution {
    pub pressures: Vec<(String, String)>,
    pub flows: Vec<(String, String)>,
}

/// Neither the text nor the XML form could be read.
#[derive(Debug, Clone, Copy, PartialEq, Eq, Structural)]
pub enum SolutionError {
    Unsupported,
}

impl SolutionError {
    pub fn message(&self) -> (m: &'static str)
        ensures
            m@ == "format de solution de référence non supporté (attendu: texte CSV-like ou XML avec node/pipe)"@,
    {
        "format de solution de référence non supporté (attendu: texte CSV-like ou XML avec node/pipe)"
    }
}

pub type ValueMap = Map<Seq<char>, Seq<char>>;

pub open spec fn pairs_view(v: Seq<(String, String)>) -> Seq<Keyed<Seq<char>>> {
    v.map_values(|e: (String, String)| (e.0@, e.1@))
}

pub open spec fn values_of(v: Seq<(String, String)>) -> ValueMap {
    to_map(pairs_view(v))
}

/// Sets `key` to `value`, in place when the key is present, else at the end.
fn assign(v: &mut Vec<(String, String)>, key: String, value: String)
    requires
        distinct_keys(pairs_view(old(v)@)),
    ensures
        distinct_keys(pairs_view(final(v)@)),
        values_of(final(v)@) == values_of(old(v)@).insert(key@, value@),
{
    let ghost ov = pairs_view(v@);
    let ghost k = key@;
    let ghost x = value@;
    proof {
        lemma_distinct_entries(ov);
    }
    let mut i: usize = 0;
    while i < v.len() && !str_eq(v[i].0.as_str(), key.as_str())
        invariant
            ov == pairs_view(v@),
            k == key@,
            i <= v@.len(),
            forall|j: int| 0 <= j < i ==> #[trigger] ov[j].0 != k,
        decreases v@.len() - i,
    {
        i = i + 1;
    }
    let ghost target = to_map(ov).insert(k, x);
    if i < v.len() {
        v.set(i, (key, value));
        proof {
            let nv = pairs_view(v@);
            assert(nv =~= ov.update(i as int, (k, x)));
            assert(keys_of(nv) =~= keys_of(ov));
            assert forall|a: int, b: int| 0 <= a < b < nv.len() implies nv[a].0 != nv[b].0 by {
                assert(ov[a].0 != ov[b].0);
            }
            assert forall|kk: Seq<char>| #[trigger] target.contains_key(kk) <==> keys_of(nv).contains(kk) by {
                if kk == k {
                    assert(keys_of(nv)[i as int] == k);
                }
            }
            assert forall|t: int| 0 <= t < nv.len() implies #[trigger] target[nv[t].0] == nv[t].1 by {
                if t != i {
                    assert(ov[t].0 != ov[i as int].0);
                    assert(to_map(ov).contains_key(ov[t].0));
                }
            }
            lemma_same_entries(nv, target);
        }
    } else {
        v.push((key, value));
        proof {
            let nv = pairs_view(v@);
            assert(nv =~= ov.push((k, x)));
            assert forall|a: int, b: int| 0 <= a < b < nv.len() implies nv[a].0 != nv[b].0 by {
                if b == ov.len() {
                    assert(ov[a].0 != k);
                } else {
                    assert(ov[a].0 != ov[b].0);
                }
            }
            assert forall|kk: Seq<char>| #[trigger] target.contains_key(kk) <==> keys_of(nv).contains(kk) by {
                if keys_of(ov).contains(kk) {
                    let t = choose|t: int| 0 <= t < keys_of(ov).len() && keys_of(ov)[t] == kk;
                    assert(keys_of(nv)[t] == kk);
                }
                if keys_of(nv).contains(kk) && kk != k {
                    let t = choose|t: int| 0 <= t < keys_of(nv).len() && keys_of(nv)[t] == kk;
                    assert(keys_of(ov)[t] == kk);
                }
                if kk == k {
                    assert(keys_of(nv)[ov.len() as int] == k);
                }
            }
            assert forall|t: int| 0 <= t < nv.len() implies #[trigger] target[nv[t].0] == nv[t].1 by {
                if t < ov.len() {
                    assert(ov[t].0 != k);
                    assert(to_map(ov).contains_key(ov[t].0));
                }
            }
            lemma_same_entries(nv, target);
        }
    }
}

// ----- text form -------------------------------------------------------------

/// ASCII white space, as `char::is_ascii_whitespace` tests it.
pub open spec fn is_ascii_ws(c: char) -> bool {
    c == ' ' || c == '\t' || c == '\n' || c == '\u{c}' || c == '\r'
}

pub open spec fn is_token_sep(c: char) -> bool {
    c == ',' || c == ';' || is_ascii_ws(c)
}

/// The tokens completed so far, and the one being read.
pub open spec fn tokens_from(s: Seq<char>) -> (Seq<Seq<char>>, Seq<char>)
    decreases s.len(),
{
    if s.len() == 0 {
        (Seq::empty(), Seq::empty())
    } else {
        let (ts, cur) = tokens_from(s.drop_last());
        if is_token_sep(s.last()) {
            if cur.len() > 0 {
                (ts.push(cur), Seq::empty())
            } else {
                (ts, Seq::empty())
            }
        } else {
            (ts, cur.push(s.last()))
        }
    }
}

/// The non-empty pieces of `s` between commas, semicolons and ASCII white space.
pub open spec fn tokens(s: Seq<char>) -> Seq<Seq<char>> {
    let (ts, cur) = tokens_from(s);
    if cur.len() > 0 {
        ts.push(cur)
    } else {
        ts
    }
}

pub open spec fn is_pressure_kind(t: Seq<char>) -> bool {
    let l = ascii_lower(t);
    l == "node"@ || l == "pressure"@ || l == "p"@
}

pub open spec fn is_flow_kind(t: Seq<char>) -> bool {
    let l = ascii_lower(t);
    l == "pipe"@ || l == "flow"@ || l == "q"@ || l == "arc"@ || l == "edge"@ || l == "connection"@
}

/// What one line of the text form says.
pub enum LineReading {
    Skip,
    Pressure(Seq<char>, Seq<char>),
    Flow(Seq<char>, Seq<char>),
    BadNumber,
}

/// A line, trimmed: blank lines and comments (`#`, `//`) say nothing; two tokens give a
/// node pressure; three or more give a pressure (`node`, `pressure`, `p`) or a flow (`pipe`,
/// `flow`, `q`, `arc`, `edge`, `connection`) when the first or second token names the kind
/// (the other being the identifier, the third the value); a value that is not a number
/// makes the whole text unreadable.
pub open spec fn read_line(line: Seq<char>) -> LineReading {
    let l = trim(line);
    if l.len() == 0 || l[0] == '#' || (l.len() >= 2 && l[0] == '/' && l[1] == '/') {
        LineReading::Skip
    } else {
        let t = tokens(l);
        if t.len() < 2 {
            LineReading::Skip
        } else if t.len() == 2 {
            if is_float_literal(t[1]) {
                LineReading::Pressure(t[0], t[1])
            } else {
                LineReading::BadNumber
            }
        } else {
            let first_kind = is_pressure_kind(t[0]) || is_flow_kind(t[0]);
            let second_kind = is_pressure_kind(t[1]) || is_flow_kind(t[1]);
            if !first_kind && !second_kind {
                LineReading::Skip
            } else {
                let kind = if first_kind { t[0] } else { t[1] };
                let id = if first_kind { t[1] } else { t[0] };
                if !is_float_literal(t[2]) {
                    LineReading::BadNumber
                } else if is_pressure_kind(kind) {
                    LineReading::Pressure(id, t[2])
                } else {
                    LineReading::Flow(id, t[2])
                }
            }
        }
    }
}

/// The lines of `s` completed so far (cut at `\n`), and the one being read.
pub open spec fn lines_from(s: Seq<char>) -> (Seq<Seq<char>>, Seq<char>)
    decreases s.len(),
{
    if s.len() == 0 {
        (Seq::empty(), Seq::empty())
    } else {
        let (ls, cur) = lines_from(s.drop_last());
        if s.last() == '\n' {
            (ls.push(cur), Seq::empty())
        } else {
            (ls, cur.push(s.last()))
        }
    }
}

/// The pieces of `s` between line feeds (a carriage return before one is white space
/// that trimming removes).
pub open spec fn line_pieces(s: Seq<char>) -> Seq<Seq<char>> {
    lines_from(s).0.push(lines_from(s).1)
}

/// The pressures and flows the lines give, or `None` at a bad number.
pub open spec fn text_maps(lines: Seq<Seq<char>>) -> Option<(ValueMap, ValueMap)>
    decreases lines.len(),
{
    if lines.len() == 0 {
        Some((Map::empty(), Map::empty()))
    } else {
        match text_maps(lines.drop_last()) {
            None => None,
            Some((p, f)) => match read_line(lines.last()) {
                LineReading::Skip => Some((p, f)),
                LineReading::Pressure(id, v) => Some((p.insert(id, v), f)),
                LineReading::Flow(id, v) => Some((p, f.insert(id, v))),
                LineReading::BadNumber => None,
            },
        }
    }
}

/// The text form of `raw`, when it reads and gives at least one value.
pub open spec fn spec_text_solution(raw: Seq<char>) -> Option<(ValueMap, ValueMap)> {
    match text_maps(line_pieces(raw)) {
        Some((p, f)) => if p == Map::<Seq<char>, Seq<char>>::empty() && f == Map::<Seq<char>, Seq<char>>::empty() {
            None
        } else {
            Some((p, f))
        },
        None => None,
    }
}

pub open spec fn token_views(v: Seq<Vec<char>>) -> Seq<Seq<char>> {
    v.map_values(|t: Vec<char>| t@)
}

/// The tokens of `s`.
pub fn tokenize(s: &Vec<char>) -> (r: Vec<Vec<char>>)
    ensures
        token_views(r@) == tokens(s@),
{
    let mut ts: Vec<Vec<char>> = Vec::new();
    let mut cur: Vec<char> = Vec::new();
    let mut i: usize = 0;
    assert(token_views(ts@) =~= Seq::<Seq<char>>::empty());
    while i < s.len()
        invariant
            i <= s@.len(),
            (token_views(ts@), cur@) == tokens_from(s@.take(i as int)),
        decreases s@.len() - i,
    {
        let c = s[i];
        assert(s@.take(i + 1).drop_last() =~= s@.take(i as int));
        assert(s@.take(i + 1).last() == c);
        if c == ',' || c == ';' || c == ' ' || c == '\t' || c == '\n' || c == '\u{c}' || c == '\r' {
            if cur.len() > 0 {
                let ghost before = token_views(ts@);
                let done = cur;
                cur = Vec::new();
                ts.push(done);
                assert(token_views(ts@) =~= before.push(done@));
            } else {
                cur = Vec::new();
            }
            assert(cur@ =~= Seq::<char>::empty());
        } else {
            cur.push(c);
        }
        i = i + 1;
    }
    assert(s@.take(s@.len() as int) =~= s@);
    if cur.len() > 0 {
        let ghost before = token_views(ts@);
        let done = cur;
        ts.push(done);
        assert(token_views(ts@) =~= before.push(done@));
    }
    ts
}

fn is_pressure_kind_exec(t: &Vec<char>) -> (r: bool)
    ensures
        r == is_pressure_kind(t@),
{
    let l = lower_vec(t);
    eq_lit(&l, "node") || eq_lit(&l, "pressure") || eq_lit(&l, "p")
}

fn is_flow_kind_exec(t: &Vec<char>) -> (r: bool)
    ensures
        r == is_flow_kind(t@),
{
    let l = lower_vec(t);
    eq_lit(&l, "pipe") || eq_lit(&l, "flow") || eq_lit(&l, "q") || eq_lit(&l, "arc") || eq_lit(&l, "edge")
        || eq_lit(&l, "connection")
}

/// What a line says, as `read_line`: `Ok(None)` to skip, `Ok(Some((is_flow, id, value)))`,
/// `Err(())` at a bad number.
fn read_line_exec(line: &Vec<char>) -> (r: Result<Option<(bool, String, String)>, ()>)
    ensures
        match read_line(line@) {
            LineReading::Skip => r == Ok::<Option<(bool, String, String)>, ()>(None),
            LineReading::Pressure(id, v) => r matches Ok(Some((false, i, x))) && i@ == id && x@ == v,
            LineReading::Flow(id, v) => r matches Ok(Some((true, i, x))) && i@ == id && x@ == v,
            LineReading::BadNumber => r is Err,
        },
{
    let (a, b) = trim_bounds(line);
    let l = crate::decimal::sub_vec(line, a, b);
    if l.len() == 0 || l[0] == '#' || (l.len() >= 2 && l[0] == '/' && l[1] == '/') {
        return Ok(None);
    }
    let t = tokenize(&l);
    let ghost tv = token_views(t@);
    assert(tv == tokens(trim(line@)));
    if t.len() < 2 {
        return Ok(None);
    }
    assert(tv[0] == t@[0]@ && tv[1] == t@[1]@);
    if t.len() == 2 {
        if float_literal_ok(&t[1]) {
            let id = string_of_range(&t[0], 0, t[0].len());
            let v = string_of_range(&t[1], 0, t[1].len());
            assert(t@[0]@.subrange(0, t@[0]@.len() as int) =~= t@[0]@);
            assert(t@[1]@.subrange(0, t@[1]@.len() as int) =~= t@[1]@);
            return Ok(Some((false, id, v)));
        } else {
            return Err(());
        }
    }
    assert(tv[2] == t@[2]@);
    let first_kind = is_pressure_kind_exec(&t[0]) || is_flow_kind_exec(&t[0]);
    let second_kind = is_pressure_kind_exec(&t[1]) || is_flow_kind_exec(&t[1]);
    if !first_kind && !second_kind {
        return Ok(None);
    }
    let (kind, id) = if first_kind { (&t[0], &t[1]) } else { (&t[1], &t[0]) };
    if !float_literal_ok(&t[2]) {
        return Err(());
    }
    let is_flow = !is_pressure_kind_exec(kind);
    let ids = string_of_range(id, 0, id.len());
    let v = string_of_range(&t[2], 0, t[2].len());
    assert(id@.subrange(0, id@.len() as int) =~= id@);
    assert(t@[2]@.subrange(0, t@[2]@.len() as int) =~= t@[2]@);
    Ok(Some((is_flow, ids, v)))
}

/// The text form of `raw` (see `spec_text_solution`).
pub fn parse_text_solution(raw: &str) -> (r: Option<ReferenceSolution>)
    ensures
        match r {
            Some(s) => spec_text_solution(raw@) == Some((values_of(s.pressures@), values_of(s.flows@)))
                && distinct_keys(pairs_view(s.pressures@)) && distinct_keys(pairs_view(s.flows@)),
            None => spec_text_solution(raw@) is None,
        },
{
    let v = chars_of(raw);
    let mut pressures: Vec<(String, String)> = Vec::new();
    let mut flows: Vec<(String, String)> = Vec::new();
    let mut cur: Vec<char> = Vec::new();
    let mut i: usize = 0;
    assert(pairs_view(pressures@) =~= Seq::<Keyed<Seq<char>>>::empty());
    assert(pairs_view(flows@) =~= Seq::<Keyed<Seq<char>>>::empty());
    assert(to_map(pairs_view(pressures@)) =~= Map::<Seq<char>, Seq<char>>::empty());
    while i < v.len()
        invariant
            v@ == raw@,
            i <= v@.len(),
            distinct_keys(pairs_view(pressures@)),
            distinct_keys(pairs_view(flows@)),
            cur@ == lines_from(v@.take(i as int)).1,
            text_maps(lines_from(v@.take(i as int)).0) == Some((values_of(pressures@), values_of(flows@))),
        decreases v@.len() - i,
    {
        assert(v@.take(i + 1).drop_last() =~= v@.take(i as int));
        if v[i] != '\n' {
            cur.push(v[i]);
        } else {
            let ghost lines = lines_from(v@.take(i as int)).0;
            proof {
                assert(lines_from(v@.take(i + 1)).0 == lines.push(cur@));
                assert(lines.push(cur@).drop_last() =~= lines);
            }
            match read_line_exec(&cur) {
                Err(()) => {
                    proof {
                        lemma_text_none_stays(v@, i as int);
                    }
                    return None;
                },
                Ok(None) => {},
                Ok(Some((is_flow, id, value))) => {
                    if is_flow {
                        assign(&mut flows, id, value);
                    } else {
                        assign(&mut pressures, id, value);
                    }
                },
            }
            cur = Vec::new();
        }
        i = i + 1;
    }
    proof {
        assert(v@.take(i as int) =~= v@);
        let lines = lines_from(v@).0;
        assert(lines.push(cur@).drop_last() =~= lines);
    }
    match read_line_exec(&cur) {
        Err(()) => {
            return None;
        },
        Ok(None) => {},
        Ok(Some((is_flow, id, value))) => {
            if is_flow {
                assign(&mut flows, id, value);
            } else {
                assign(&mut pressures, id, value);
            }
        },
    }
    if pressures.len() == 0 && flows.len() == 0 {
        proof {
            assert(pairs_view(pressures@) =~= Seq::<Keyed<Seq<char>>>::empty());
            assert(pairs_view(flows@) =~= Seq::<Keyed<Seq<char>>>::empty());
        }
        return None;
    }
    proof {
        if pressures@.len() > 0 {
            lemma_distinct_entries(pairs_view(pressures@));
            assert(values_of(pressures@).contains_key(pairs_view(pressures@)[0].0));
        } else {
            lemma_distinct_entries(pairs_view(flows@));
            assert(values_of(flows@).contains_key(pairs_view(flows@)[0].0));
        }
    }
    Some(ReferenceSolution { pressures, flows })
}

/// Once a line has a bad number, no later line helps.
proof fn lemma_text_none_stays(s: Seq<char>, i: int)
    requires
        0 <= i <= s.len(),
        i < s.len() ==> s[i] == '\n',
        text_maps(lines_from(s.take(i)).0.push(lines_from(s.take(i)).1)) is None,
    ensures
        text_maps(line_pieces(s)) is None,
{
    lemma_text_maps_prefix(s, i);
}

proof fn lemma_text_maps_prefix(s: Seq<char>, i: int)
    requires
        0 <= i <= s.len(),
        i < s.len() ==> s[i] == '\n',
        text_maps(lines_from(s.take(i)).0.push(lines_from(s.take(i)).1)) is None,
    ensures
        text_maps(line_pieces(s)) is None,
    decreases s.len() - i,
{
    if i == s.len() {
        assert(s.take(i) =~= s);
    } else {
        // the line ending at `i` is complete in `s.take(i + 1)`
        assert(s.take(i + 1).drop_last() =~= s.take(i));
        let done = lines_from(s.take(i + 1)).0;
        assert(done == lines_from(s.take(i)).0.push(lines_from(s.take(i)).1));
        lemma_none_extends(s, i + 1);
    }
}

/// With the completed lines of `s.take(j)` already unreadable, so is `s`.
proof fn lemma_none_extends(s: Seq<char>, j: int)
    requires
        0 <= j <= s.len(),
        text_maps(lines_from(s.take(j)).0) is None,
    ensures
        text_maps(line_pieces(s)) is None,
    decreases s.len() - j,
{
    if j == s.len() {
        assert(s.take(j) =~= s);
        let ls = lines_from(s).0;
        assert(ls.push(lines_from(s).1).drop_last() =~= ls);
    } else {
        assert(s.take(j + 1).drop_last() =~= s.take(j));
        let ls = lines_from(s.take(j)).0;
        if s[j] == '\n' {
            let nl = lines_from(s.take(j + 1)).0;
            assert(nl == ls.push(lines_from(s.take(j)).1));
            assert(nl.drop_last() =~= ls);
        }
        lemma_none_extends(s, j + 1);
    }
}

// ----- XML form --------------------------------------------------------------

/// Whether `t` occurs in `s`.
pub open spec fn contains_text(s: Seq<char>, t: Seq<char>) -> bool {
    exists|i: int| 0 <= i && i + t.len() <= s.len() && #[trigger] s.subrange(i, i + t.len()) == t
}

pub fn contains_text_exec(s: &Vec<char>, t: &str) -> (r: bool)
    ensures
        r == contains_text(s@, t@),
{
    let tv = chars_of(t);
    if tv.len() > s.len() {
        proof {
            assert forall|i: int| 0 <= i && i + tv@.len() <= s@.len() implies #[trigger] s@.subrange(i, i + t@.len()) != t@ by {}
        }
        return false;
    }
    let n = s.len();
    let limit = n - tv.len();
    let mut i: usize = 0;
    while i <= limit
        invariant
            tv@ == t@,
            tv@.len() <= s@.len(),
            n == s@.len(),
            limit == s@.len() - tv@.len(),
            i <= limit + 1,
            forall|j: int| 0 <= j < i ==> #[trigger] s@.subrange(j, j + t@.len()) != t@,
        decreases limit + 1 - i,
    {
        let mut k: usize = 0;
        let mut same = true;
        while k < tv.len()
            invariant
                tv@ == t@,
                tv@.len() <= s@.len(),
                n == s@.len(),
                i <= limit,
                limit == s@.len() - tv@.len(),
                k <= tv@.len(),
                same == forall|m: int| 0 <= m < k ==> s@[i + m] == tv@[m],
            decreases tv@.len() - k,
        {
            if s[i + k] != tv[k] {
                same = false;
            }
            k = k + 1;
        }
        if same {
            assert(s@.subrange(i as int, i + t@.len()) =~= t@);
            return true;
        } else {
            proof {
                let m = choose|m: int| 0 <= m < tv@.len() && s@[i + m] != tv@[m];
                assert(s@.subrange(i as int, i + t@.len())[m] != t@[m]);
            }
        }
        if i == limit {
            proof {
                assert forall|j: int| 0 <= j && j + t@.len() <= s@.len() implies #[trigger] s@.subrange(j, j + t@.len()) != t@ by {
                    if j == i {
                    }
                }
            }
            return false;
        }
        i = i + 1;
    }
    false
}

pub open spec fn is_node_element(n: Seq<char>) -> bool {
    contains_text(n, "node"@) || contains_text(n, "vertex"@)
}

pub open spec fn is_pipe_element(n: Seq<char>) -> bool {
    contains_text(n, "pipe"@) || contains_text(n, "arc"@) || contains_text(n, "edge"@) || contains_text(n, "connection"@)
}

pub open spec fn is_pressure_element(n: Seq<char>) -> bool {
    n == "pressure"@ || n == "p"@ || contains_text(n, "pressure"@)
}

pub open spec fn is_flow_element(n: Seq<char>) -> bool {
    n == "flow"@ || n == "q"@ || contains_text(n, "flow"@)
}

pub open spec fn is_id_key(k: Seq<char>) -> bool {
    k == "id"@ || k == "nodeid"@ || k == "pipeid"@ || k == "arcid"@ || k == "edgeid"@ || k == "name"@
}

pub open spec fn is_pressure_key(k: Seq<char>) -> bool {
    k == "pressure"@ || k == "pressurebar"@ || k == "p"@ || contains_text(k, "pressure"@)
}

pub open spec fn is_flow_key(k: Seq<char>) -> bool {
    k == "flow"@ || k == "q"@ || contains_text(k, "flow"@)
}

/// Identifier, pressure, flow and plain value read from a tag's attributes.
pub type AttrScan = (Option<Seq<char>>, Option<Seq<char>>, Option<Seq<char>>, Option<Seq<char>>);

/// The attributes in order: the last identifier (`id`, `nodeId`, `pipeId`, `arcId`,
/// `edgeId`, `name`) and the last numeric pressure, flow and `value` keys count;
/// unparsable attributes are skipped; a value that does not unescape fails the tag.
pub open spec fn scan_attrs(attrs: Seq<AttrView>) -> Option<AttrScan>
    decreases attrs.len(),
{
    if attrs.len() == 0 {
        Some((None, None, None, None))
    } else {
        match scan_attrs(attrs.drop_last()) {
            None => None,
            Some(acc) => match attrs.last() {
                None => Some(acc),
                Some((k, raw)) => match xml_unescaped(raw) {
                    None => None,
                    Some(v) => {
                        let key = spec_local_name(k);
                        if is_id_key(key) {
                            Some((Some(v), acc.1, acc.2, acc.3))
                        } else if is_float_literal(v) {
                            if is_pressure_key(key) {
                                Some((acc.0, Some(v), acc.2, acc.3))
                            } else if is_flow_key(key) {
                                Some((acc.0, acc.1, Some(v), acc.3))
                            } else if key == "value"@ {
                                Some((acc.0, acc.1, acc.2, Some(v)))
                            } else {
                                Some(acc)
                            }
                        } else {
                            Some(acc)
                        }
                    },
                },
            },
        }
    }
}

/// Pressures, flows, and the node and pipe being read.
pub type SolState = (ValueMap, ValueMap, Option<Seq<char>>, Option<Seq<char>>);

pub open spec fn either(a: Option<Seq<char>>, b: Option<Seq<char>>) -> Option<Seq<char>> {
    if a is Some {
        a
    } else {
        b
    }
}

pub open spec fn put(m: ValueMap, id: Option<Seq<char>>, v: Option<Seq<char>>) -> ValueMap {
    match (id, v) {
        (Some(i), Some(x)) => m.insert(i, x),
        _ => m,
    }
}

/// A start or empty-element tag: a node or pipe element sets the current node or pipe
/// (when it has an identifier); an identifier with a pressure or flow attribute records it;
/// a pressure or flow element records its value for the current node or pipe.
pub open spec fn sol_open(st: SolState, qname: Seq<char>, attrs: Seq<AttrView>) -> Option<SolState> {
    match scan_attrs(attrs) {
        None => None,
        Some((id, p, f, v)) => {
            let n = spec_local_name(qname);
            let node = if is_node_element(n) { either(id, st.2) } else { st.2 };
            let pipe = if is_pipe_element(n) { either(id, st.3) } else { st.3 };
            let pm = put(st.0, id, p);
            let fm = put(st.1, id, f);
            let pm2 = if is_pressure_element(n) { put(pm, node, either(p, v)) } else { pm };
            let fm2 = if is_flow_element(n) { put(fm, pipe, either(f, v)) } else { fm };
            Some((pm2, fm2, node, pipe))
        },
    }
}

pub open spec fn sol_close(st: SolState, qname: Seq<char>) -> SolState {
    let n = spec_local_name(qname);
    (st.0, st.1, if is_node_element(n) { None } else { st.2 }, if is_pipe_element(n) { None } else { st.3 })
}

/// The values read from `events` in state `st`, up to the end of input; `None` at an XML
/// error or a value that does not unescape.
pub open spec fn sol_run(st: SolState, events: Seq<XmlEventView>) -> Option<(ValueMap, ValueMap)>
    decreases events.len(),
{
    if events.len() == 0 {
        Some((st.0, st.1))
    } else {
        match events[0] {
            XmlEventView::Eof => Some((st.0, st.1)),
            XmlEventView::Error(_) => None,
            XmlEventView::Start(n, a) => match sol_open(st, n, a) {
                Some(s2) => sol_run(s2, events.drop_first()),
                None => None,
            },
            XmlEventView::Empty(n, a) => match sol_open(st, n, a) {
                Some(s2) => sol_run(s2, events.drop_first()),
                None => None,
            },
            XmlEventView::End(n) => sol_run(sol_close(st, n), events.drop_first()),
            XmlEventView::Other => sol_run(st, events.drop_first()),
        }
    }
}

/// The XML form of `raw`, when it reads and gives at least one value.
pub open spec fn spec_xml_solution(raw: Seq<char>) -> Option<(ValueMap, ValueMap)> {
    match sol_run((Map::empty(), Map::empty(), None, None), xml_events(raw)) {
        Some((p, f)) => if p == Map::<Seq<char>, Seq<char>>::empty() && f == Map::<Seq<char>, Seq<char>>::empty() {
            None
        } else {
            Some((p, f))
        },
        None => None,
    }
}

pub open spec fn opt_text(o: Option<String>) -> Option<Seq<char>> {
    match o {
        Some(s) => Some(s@),
        None => None,
    }
}

fn scan_attrs_exec(tag: &XmlTag) -> (r: Option<(Option<String>, Option<String>, Option<String>, Option<String>)>)
    ensures
        match r {
            Some(x) => scan_attrs(attrs_view(*tag)) == Some((opt_text(x.0), opt_text(x.1), opt_text(x.2), opt_text(x.3))),
            None => scan_attrs(attrs_view(*tag)) is None,
        },
{
    let ghost av = attrs_view(*tag);
    let mut id: Option<String> = None;
    let mut p: Option<String> = None;
    let mut f: Option<String> = None;
    let mut val: Option<String> = None;
    let mut i: usize = 0;
    while i < tag.attrs.len()
        invariant
            av == attrs_view(*tag),
            i <= tag.attrs@.len(),
            scan_attrs(av.take(i as int)) == Some((opt_text(id), opt_text(p), opt_text(f), opt_text(val))),
        decreases tag.attrs@.len() - i,
    {
        assert(av.take(i + 1).drop_last() =~= av.take(i as int));
        assert(av.take(i + 1).last() == av[i as int]);
        match &tag.attrs[i] {
            None => {},
            Some((k, raw)) => {
                let v = match unescape_value(raw.as_str()) {
                    Some(v) => v,
                    None => {
                        proof {
                            lemma_scan_none_stays(av, i + 1);
                        }
                        return None;
                    },
                };
                let key = local_name(k.as_str());
                let kv = chars_of(key.as_str());
                let vv = chars_of(v.as_str());
                if eq_lit(&kv, "id") || eq_lit(&kv, "nodeid") || eq_lit(&kv, "pipeid") || eq_lit(&kv, "arcid")
                    || eq_lit(&kv, "edgeid") || eq_lit(&kv, "name") {
                    id = Some(v);
                } else if float_literal_ok(&vv) {
                    if eq_lit(&kv, "pressure") || eq_lit(&kv, "pressurebar") || eq_lit(&kv, "p")
                        || contains_text_exec(&kv, "pressure") {
                        p = Some(v);
                    } else if eq_lit(&kv, "flow") || eq_lit(&kv, "q") || contains_text_exec(&kv, "flow") {
                        f = Some(v);
                    } else if eq_lit(&kv, "value") {
                        val = Some(v);
                    }
                }
            },
        }
        i = i + 1;
    }
    assert(av.take(tag.attrs@.len() as int) =~= av);
    Some((id, p, f, val))
}

proof fn lemma_scan_none_stays(av: Seq<AttrView>, i: int)
    requires
        0 <= i <= av.len(),
        scan_attrs(av.take(i)) is None,
    ensures
        scan_attrs(av) is None,
    decreases av.len() - i,
{
    if i == av.len() {
        assert(av.take(i) =~= av);
    } else {
        assert(av.take(i + 1).drop_last() =~= av.take(i));
        lemma_scan_none_stays(av, i + 1);
    }
}

fn node_element(n: &Vec<char>) -> (r: bool)
    ensures
        r == is_node_element(n@),
{
    contains_text_exec(n, "node") || contains_text_exec(n, "vertex")
}

fn pipe_element(n: &Vec<char>) -> (r: bool)
    ensures
        r == is_pipe_element(n@),
{
    contains_text_exec(n, "pipe") || contains_text_exec(n, "arc") || contains_text_exec(n, "edge")
        || contains_text_exec(n, "connection")
}

fn put_exec(m: &mut Vec<(String, String)>, id: &Option<String>, v: &Option<String>)
    requires
        distinct_keys(pairs_view(old(m)@)),
    ensures
        distinct_keys(pairs_view(final(m)@)),
        values_of(final(m)@) == put(values_of(old(m)@), opt_text(*id), opt_text(*v)),
{
    match (id, v) {
        (Some(i), Some(x)) => assign(m, i.clone(), x.clone()),
        _ => {},
    }
}

fn either_exec(a: &Option<String>, b: &Option<String>) -> (r: Option<String>)
    ensures
        opt_text(r) == either(opt_text(*a), opt_text(*b)),
{
    match a {
        Some(x) => Some(x.clone()),
        None => match b {
            Some(y) => Some(y.clone()),
            None => None,
        },
    }
}

/// The state of reading the XML form.
pub struct SolutionReader {
    pub pressures: Vec<(String, String)>,
    pub flows: Vec<(String, String)>,
    pub node: Option<String>,
    pub pipe: Option<String>,
}

pub open spec fn sol_view(r: SolutionReader) -> SolState {
    (values_of(r.pressures@), values_of(r.flows@), opt_text(r.node), opt_text(r.pipe))
}

pub open spec fn sol_wf(r: SolutionReader) -> bool {
    distinct_keys(pairs_view(r.pressures@)) && distinct_keys(pairs_view(r.flows@))
}

impl SolutionReader {
    /// Takes a start or empty-element tag into account; `false` (with the state then
    /// meaningless) when an attribute value does not unescape.
    pub fn open_tag(&mut self, tag: &XmlTag) -> (ok: bool)
        requires
            sol_wf(*old(self)),
        ensures
            sol_wf(*final(self)),
            ok == sol_open(sol_view(*old(self)), tag.name@, attrs_view(*tag)) is Some,
            ok ==> sol_open(sol_view(*old(self)), tag.name@, attrs_view(*tag)) == Some(sol_view(*final(self))),
    {
        let (id, p, f, v) = match scan_attrs_exec(tag) {
            Some(x) => x,
            None => return false,
        };
        let name = local_name(tag.name.as_str());
        let n = chars_of(name.as_str());
        if node_element(&n) {
            self.node = either_exec(&id, &self.node);
        }
        if pipe_element(&n) {
            self.pipe = either_exec(&id, &self.pipe);
        }
        put_exec(&mut self.pressures, &id, &p);
        put_exec(&mut self.flows, &id, &f);
        if eq_lit(&n, "pressure") || eq_lit(&n, "p") || contains_text_exec(&n, "pressure") {
            let pv = either_exec(&p, &v);
            let node = match &self.node {
                Some(x) => Some(x.clone()),
                None => None,
            };
            put_exec(&mut self.pressures, &node, &pv);
        }
        if eq_lit(&n, "flow") || eq_lit(&n, "q") || contains_text_exec(&n, "flow") {
            let fv = either_exec(&f, &v);
            let pipe = match &self.pipe {
                Some(x) => Some(x.clone()),
                None => None,
            };
            put_exec(&mut self.flows, &pipe, &fv);
        }
        true
    }

    /// Takes an end tag into account.
    pub fn close_tag(&mut self, qname: &String)
        ensures
            sol_view(*final(self)) == sol_close(sol_view(*old(self)), qname@),
            final(self).pressures == old(self).pressures,
            final(self).flows == old(self).flows,
    {
        let name = local_name(qname.as_str());
        let n = chars_of(name.as_str());
        if node_element(&n) {
            self.node = None;
        }
        if pipe_element(&n) {
            self.pipe = None;
        }
    }
}

/// The XML form of `raw` (see `spec_xml_solution`).
pub fn parse_xml_solution(raw: &str) -> (r: Option<ReferenceSolution>)
    ensures
        match r {
            Some(s) => spec_xml_solution(raw@) == Some((values_of(s.pressures@), values_of(s.flows@)))
                && distinct_keys(pairs_view(s.pressures@)) && distinct_keys(pairs_view(s.flows@)),
            None => spec_xml_solution(raw@) is None,
        },
{
    let mut reader = xml_reader(raw);
    let mut st = SolutionReader { pressures: Vec::new(), flows: Vec::new(), node: None, pipe: None };
    assert(pairs_view(st.pressures@) =~= Seq::<Keyed<Seq<char>>>::empty());
    assert(pairs_view(st.flows@) =~= Seq::<Keyed<Seq<char>>>::empty());
    assert(values_of(st.pressures@) =~= Map::<Seq<char>, Seq<char>>::empty());
    assert(values_of(st.flows@) =~= Map::<Seq<char>, Seq<char>>::empty());
    loop
        invariant
            well_ended(reader_events(reader)),
            sol_wf(st),
            sol_run(sol_view(st), reader_events(reader)) == sol_run((Map::empty(), Map::empty(), None, None), xml_events(raw@)),
        decreases reader_events(reader).len(),
    {
        let ghost rest = reader_events(reader);
        let ev = next_event(&mut reader);
        match &ev {
            XmlEvent::Eof => {
                return finish_solution(st);
            },
            XmlEvent::Error(_) => {
                return None;
            },
            _ => {
                assert(!is_terminal(rest[0]));
                assert(rest.len() > 1);
                match &ev {
                    XmlEvent::Start(t) => {
                        if !st.open_tag(t) {
                            return None;
                        }
                    },
                    XmlEvent::Empty(t) => {
                        if !st.open_tag(t) {
                            return None;
                        }
                    },
                    XmlEvent::End(n) => st.close_tag(n),
                    _ => {},
                }
                assert(well_ended(reader_events(reader))) by {
                    let r2 = reader_events(reader);
                    assert forall|i: int| 0 <= i < r2.len() - 1 implies !is_terminal(#[trigger] r2[i]) by {
                        assert(r2[i] == rest[i + 1]);
                    }
                }
            },
        }
    }
}

/// The solution read, when it holds at least one value.
fn finish_solution(st: SolutionReader) -> (r: Option<ReferenceSolution>)
    requires
        sol_wf(st),
    ensures
        match r {
            Some(s) => (values_of(s.pressures@), values_of(s.flows@)) == (values_of(st.pressures@), values_of(st.flows@))
                && !(values_of(s.pressures@) == Map::<Seq<char>, Seq<char>>::empty() && values_of(s.flows@) == Map::<Seq<char>, Seq<char>>::empty())
                && distinct_keys(pairs_view(s.pressures@)) && distinct_keys(pairs_view(s.flows@)),
            None => values_of(st.pressures@) == Map::<Seq<char>, Seq<char>>::empty() && values_of(st.flows@) == Map::<Seq<char>, Seq<char>>::empty(),
        },
{
    if st.pressures.len() == 0 && st.flows.len() == 0 {
        proof {
            assert(pairs_view(st.pressures@) =~= Seq::<Keyed<Seq<char>>>::empty());
            assert(pairs_view(st.flows@) =~= Seq::<Keyed<Seq<char>>>::empty());
        }
        return None;
    }
    proof {
        if st.pressures@.len() > 0 {
            lemma_distinct_entries(pairs_view(st.pressures@));
            assert(values_of(st.pressures@).contains_key(pairs_view(st.pressures@)[0].0));
        } else {
            lemma_distinct_entries(pairs_view(st.flows@));
            assert(values_of(st.flows@).contains_key(pairs_view(st.flows@)[0].0));
        }
    }
    Some(ReferenceSolution { pressures: st.pressures, flows: st.flows })
}

/// What `parse_reference_solution_from_str` answers: the text form when it reads, else
/// the XML form when it reads.
pub open spec fn spec_reference_solution(raw: Seq<char>) -> Option<(ValueMap, ValueMap)> {
    match spec_text_solution(raw) {
        Some(s) => Some(s),
        None => spec_xml_solution(raw),
    }
}

/// A reference solution read from `raw`: first as text, then as XML.
pub fn parse_reference_solution_from_str(raw: &str) -> (r: Result<ReferenceSolution, SolutionError>)
    ensures
        match r {
            Ok(s) => spec_reference_solution(raw@) == Some((values_of(s.pressures@), values_of(s.flows@)))
                && distinct_keys(pairs_view(s.pressures@)) && distinct_keys(pairs_view(s.flows@)),
            Err(_) => spec_reference_solution(raw@) is None,
        },
{
    if let Some(s) = parse_text_solution(raw) {
        return Ok(s);
    }
    if let Some(s) = parse_xml_solution(raw) {
        return Ok(s);
    }
    Err(SolutionError::Unsupported)
}

} // verus!
