//! The properties of an imported feature (a GeoJSON feature or a CSV row) as a JSON value,
//! and the attributes that a mapping path designates in them.

use vstd::prelude::*;

use crate::decimal::{float_literal_ok, is_float_literal};
use crate::magnitude::is_finite_literal;
use crate::field_path::{field_path_steps, lemma_path_steps_nonempty, path_steps, step_view, steps_view, PathStep};
use crate::text::{chars_of, str_eq};

verus! {

/// A JSON value. A number is kept as its text (as JSON writers print it); an object keeps
/// its members in order, each key once.
#[derive(Debug, PartialEq)]
pub enum JsonValue {
    Null,
    Bool(bool),
    Number(String),
    String(String),
    Array(Vec<JsonValue>),
    Object(Vec<(String, JsonValue)>),
}

/// The value of the first member named `key`.
pub open spec fn member(members: Seq<(String, JsonValue)>, key: Seq<char>) -> Option<JsonValue>
    decreases members.len(),
{
    if members.len() == 0 {
        None
    } else if members[0].0@ == key {
        Some(members[0].1)
    } else {
        member(members.drop_first(), key)
    }
}

/// One step into a value: a member of an object, or an element of an array; anything
/// else has none.
pub open spec fn json_step(v: JsonValue, s: PathStep<Seq<char>>) -> Option<JsonValue> {
    match s {
        PathStep::Key(k) => match v {
            JsonValue::Object(m) => member(m@, k),
            _ => None,
        },
        PathStep::Index(i) => match v {
            JsonValue::Array(a) => if i < a@.len() {
                Some(a@[i as int])
            } else {
                None
            },
            _ => None,
        },
    }
}

/// The value reached from `v` by the steps in turn.
pub open spec fn walk(v: JsonValue, steps: Seq<PathStep<Seq<char>>>) -> Option<JsonValue>
    decreases steps.len(),
{
    if steps.len() == 0 {
        Some(v)
    } else {
        match json_step(v, steps[0]) {
            None => None,
            Some(w) => walk(w, steps.drop_first()),
        }
    }
}

/// Where the properties of a feature are looked up: its properties (an empty object when it
/// has none) and, for a point feature, its geometry, set as their member `geometry` when
/// the properties are an object; or, for a CSV row, its cells by column name (see
/// `row_cells`), which then stand for the properties.
pub struct PropsView {
    pub props: Option<JsonValue>,
    pub geometry: Option<JsonValue>,
    pub row: Option<Seq<(Seq<char>, Cell)>>,
}

/// A CSV cell as a property: a number (with its text) or a string.
pub type Cell = (bool, Seq<char>);

/// The properties as an exec reference pair (see `PropsView`).
pub struct PropsRef<'a> {
    pub props: Option<&'a JsonValue>,
    pub geometry: Option<&'a JsonValue>,
}

pub open spec fn props_view(r: PropsRef) -> PropsView {
    PropsView {
        props: match r.props {
            Some(p) => Some(*p),
            None => None,
        },
        geometry: match r.geometry {
            Some(g) => Some(*g),
            None => None,
        },
        row: None,
    }
}

/// The properties hold the geometry as their member `geometry`.
pub open spec fn takes_geometry(v: PropsView) -> bool {
    v.geometry is Some && match v.props {
        Some(p) => p is Object,
        None => true,
    }
}

/// The value reached by non-empty steps in the properties.
pub open spec fn walk_in(v: PropsView, steps: Seq<PathStep<Seq<char>>>) -> Option<JsonValue> {
    if takes_geometry(v) && steps.len() > 0 && steps[0] == PathStep::Key("geometry"@) {
        walk(v.geometry.unwrap(), steps.drop_first())
    } else {
        match v.props {
            Some(p) => walk(p, steps),
            None => None,
        }
    }
}

/// The value that `path` designates in the properties, if the path reads and leads
/// somewhere.
pub open spec fn resolve_in(v: PropsView, path: Seq<char>) -> Option<JsonValue> {
    match path_steps(path) {
        None => None,
        Some(st) => walk_in(v, st),
    }
}

/// The value that `path` designates in `props`, if the path reads and leads somewhere.
pub open spec fn spec_resolve_field(props: JsonValue, path: Seq<char>) -> Option<JsonValue> {
    match path_steps(path) {
        None => None,
        Some(st) => walk(props, st),
    }
}

fn member_of<'a>(members: &'a Vec<(String, JsonValue)>, key: &str) -> (r: Option<&'a JsonValue>)
    ensures
        match r {
            Some(x) => member(members@, key@) == Some(*x),
            None => member(members@, key@) is None,
        },
{
    let mut i: usize = 0;
    assert(members@.skip(0) =~= members@);
    while i < members.len()
        invariant
            i <= members@.len(),
            member(members@, key@) == member(members@.skip(i as int), key@),
        decreases members@.len() - i,
    {
        assert(members@.skip(i as int)[0] == members@[i as int]);
        assert(members@.skip(i as int).drop_first() =~= members@.skip(i + 1));
        if str_eq(members[i].0.as_str(), key) {
            return Some(&members[i].1);
        }
        i = i + 1;
    }
    assert(members@.skip(i as int).len() == 0);
    None
}

fn step_into<'a>(v: &'a JsonValue, s: &PathStep<String>) -> (r: Option<&'a JsonValue>)
    ensures
        match r {
            Some(x) => json_step(*v, crate::field_path::step_view(*s)) == Some(*x),
            None => json_step(*v, crate::field_path::step_view(*s)) is None,
        },
{
    match s {
        PathStep::Key(k) => match v {
            JsonValue::Object(m) => member_of(m, k.as_str()),
            _ => None,
        },
        PathStep::Index(i) => match v {
            JsonValue::Array(a) => if *i < a.len() {
                Some(&a[*i])
            } else {
                None
            },
            _ => None,
        },
    }
}

/// The value reached from `start` by the steps from position `i0` on.
fn walk_from<'a>(start: &'a JsonValue, steps: &Vec<PathStep<String>>, i0: usize) -> (r: Option<&'a JsonValue>)
    requires
        i0 <= steps@.len(),
    ensures
        match r {
            Some(x) => walk(*start, steps_view(steps@).skip(i0 as int)) == Some(*x),
            None => walk(*start, steps_view(steps@).skip(i0 as int)) is None,
        },
{
    let ghost sv = steps_view(steps@);
    let mut current = start;
    let mut i: usize = i0;
    while i < steps.len()
        invariant
            sv == steps_view(steps@),
            i0 <= i <= steps@.len(),
            walk(*start, sv.skip(i0 as int)) == walk(*current, sv.skip(i as int)),
        decreases steps@.len() - i,
    {
        assert(sv.skip(i as int)[0] == sv[i as int]);
        assert(sv.skip(i as int).drop_first() =~= sv.skip(i + 1));
        assert(sv[i as int] == step_view(steps@[i as int]));
        match step_into(current, &steps[i]) {
            None => {
                assert(json_step(*current, sv.skip(i as int)[0]) is None);
                assert(walk(*current, sv.skip(i as int)) is None);
                return None;
            },
            Some(w) => current = w,
        }
        i = i + 1;
    }
    assert(sv.skip(i as int).len() == 0);
    Some(current)
}

/// The value that `path` designates in `props` (see `spec_resolve_field`).
pub fn resolve_field<'a>(props: &'a JsonValue, path: &str) -> (r: Option<&'a JsonValue>)
    ensures
        match r {
            Some(x) => spec_resolve_field(*props, path@) == Some(*x),
            None => spec_resolve_field(*props, path@) is None,
        },
{
    let steps = match field_path_steps(path) {
        None => return None,
        Some(st) => st,
    };
    assert(steps_view(steps@).skip(0) =~= steps_view(steps@));
    walk_from(props, &steps, 0)
}

/// The value that `path` designates in the properties `src` (see `resolve_in`).
pub fn resolve_in_props<'a>(src: &PropsRef<'a>, path: &str) -> (r: Option<&'a JsonValue>)
    ensures
        match r {
            Some(x) => resolve_in(props_view(*src), path@) == Some(*x),
            None => resolve_in(props_view(*src), path@) is None,
        },
{
    let steps = match field_path_steps(path) {
        None => return None,
        Some(st) => st,
    };
    let ghost sv = steps_view(steps@);
    proof {
        lemma_path_steps_nonempty(path@);
        reveal_strlit("geometry");
    }
    assert(sv.skip(0) =~= sv);
    assert(sv.skip(1) =~= sv.drop_first());
    assert(sv[0] == step_view(steps@[0]));
    let props_is_object = match src.props {
        Some(p) => match p {
            JsonValue::Object(_) => true,
            _ => false,
        },
        None => true,
    };
    let first_is_geometry = match &steps[0] {
        PathStep::Key(k) => str_eq(k.as_str(), "geometry"),
        PathStep::Index(_) => false,
    };
    match src.geometry {
        Some(g) => {
            if props_is_object && first_is_geometry {
                return walk_from(g, &steps, 1);
            }
        },
        None => {},
    }
    match src.props {
        Some(p) => walk_from(p, &steps, 0),
        None => None,
    }
}

/// The text of a value: a string, a number's text, or `true` / `false`.
pub open spec fn text_of(v: JsonValue) -> Option<Seq<char>> {
    match v {
        JsonValue::String(s) => Some(s@),
        JsonValue::Number(n) => Some(n@),
        JsonValue::Bool(b) => Some(if b { "true"@ } else { "false"@ }),
        _ => None,
    }
}

/// The number literal of a value: a number's text, or a string that `f64::from_str` reads.
pub open spec fn number_of(v: JsonValue) -> Option<Seq<char>> {
    match v {
        JsonValue::Number(n) => Some(n@),
        JsonValue::String(s) => if is_float_literal(s@) {
            Some(s@)
        } else {
            None
        },
        _ => None,
    }
}

pub open spec fn spec_resolve_string(props: JsonValue, path: Seq<char>) -> Option<Seq<char>> {
    match spec_resolve_field(props, path) {
        Some(v) => text_of(v),
        None => None,
    }
}

pub open spec fn spec_resolve_f64(props: JsonValue, path: Seq<char>) -> Option<Seq<char>> {
    match spec_resolve_field(props, path) {
        Some(v) => number_of(v),
        None => None,
    }
}

/// The text that `path` designates in `props` (see `text_of`).
pub fn resolve_string(props: &JsonValue, path: &str) -> (r: Option<String>)
    ensures
        match r {
            Some(s) => spec_resolve_string(*props, path@) == Some(s@),
            None => spec_resolve_string(*props, path@) is None,
        },
{
    match resolve_field(props, path) {
        Some(v) => match v {
            JsonValue::String(s) => Some(s.clone()),
            JsonValue::Number(n) => Some(n.clone()),
            JsonValue::Bool(b) => Some(if *b { "true".to_string() } else { "false".to_string() }),
            _ => None,
        },
        None => None,
    }
}

/// The number literal that `path` designates in `props` (see `number_of`).
pub fn resolve_f64(props: &JsonValue, path: &str) -> (r: Option<String>)
    ensures
        match r {
            Some(s) => spec_resolve_f64(*props, path@) == Some(s@),
            None => spec_resolve_f64(*props, path@) is None,
        },
{
    match resolve_field(props, path) {
        Some(v) => match v {
            JsonValue::Number(n) => Some(n.clone()),
            JsonValue::String(s) => {
                let c = chars_of(s.as_str());
                if float_literal_ok(&c) {
                    Some(s.clone())
                } else {
                    None
                }
            },
            _ => None,
        },
        None => None,
    }
}

/// The text that `path` designates in the properties `v` (see `text_of`).
pub open spec fn text_in(v: PropsView, path: Seq<char>) -> Option<Seq<char>> {
    match v.row {
        Some(r) => match row_lookup(r, path) {
            Some(c) => Some(c.1),
            None => None,
        },
        None => match resolve_in(v, path) {
            Some(x) => text_of(x),
            None => None,
        },
    }
}

/// The number literal that `path` designates in the properties `v` (see `number_of`).
pub open spec fn number_in(v: PropsView, path: Seq<char>) -> Option<Seq<char>> {
    match v.row {
        Some(r) => match row_lookup(r, path) {
            Some(c) => if c.0 || is_float_literal(c.1) {
                Some(c.1)
            } else {
                None
            },
            None => None,
        },
        None => match resolve_in(v, path) {
            Some(x) => number_of(x),
            None => None,
        },
    }
}

fn text_value(v: &JsonValue) -> (r: Option<String>)
    ensures
        match r {
            Some(s) => text_of(*v) == Some(s@),
            None => text_of(*v) is None,
        },
{
    match v {
        JsonValue::String(s) => Some(s.clone()),
        JsonValue::Number(n) => Some(n.clone()),
        JsonValue::Bool(b) => Some(if *b { "true".to_string() } else { "false".to_string() }),
        _ => None,
    }
}

fn number_value(v: &JsonValue) -> (r: Option<String>)
    ensures
        match r {
            Some(s) => number_of(*v) == Some(s@),
            None => number_of(*v) is None,
        },
{
    match v {
        JsonValue::Number(n) => Some(n.clone()),
        JsonValue::String(s) => {
            let c = chars_of(s.as_str());
            if float_literal_ok(&c) {
                Some(s.clone())
            } else {
                None
            }
        },
        _ => None,
    }
}

/// The text that `path` designates in the properties `src` (see `text_in`).
pub fn text_in_props(src: &PropsRef, path: &str) -> (r: Option<String>)
    ensures
        match r {
            Some(s) => text_in(props_view(*src), path@) == Some(s@),
            None => text_in(props_view(*src), path@) is None,
        },
{
    match resolve_in_props(src, path) {
        Some(v) => text_value(v),
        None => None,
    }
}

/// The number literal that `path` designates in the properties `src` (see `number_in`).
pub fn number_in_props(src: &PropsRef, path: &str) -> (r: Option<String>)
    ensures
        match r {
            Some(s) => number_in(props_view(*src), path@) == Some(s@),
            None => number_in(props_view(*src), path@) is None,
        },
{
    match resolve_in_props(src, path) {
        Some(v) => number_value(v),
        None => None,
    }
}

/// The member `key` of `v`, when `v` is an object that has one.
pub fn get_key<'a>(v: &'a JsonValue, key: &str) -> (r: Option<&'a JsonValue>)
    ensures
        match r {
            Some(x) => json_step(*v, PathStep::Key(key@)) == Some(*x),
            None => json_step(*v, PathStep::Key(key@)) is None,
        },
{
    match v {
        JsonValue::Object(m) => member_of(m, key),
        _ => None,
    }
}

// ---------------------------------------------------------------------------
// CSV rows
// ---------------------------------------------------------------------------

/// A cell as a property: a cell that `f64::from_str` reads is a number, kept as written
/// when finite and as `0` when it reads as an infinity or a NaN (which JSON numbers cannot
/// hold); any other cell is a string.
pub open spec fn cell_of(c: Seq<char>) -> Cell {
    if is_float_literal(c) {
        if is_finite_literal(c) {
            (true, c)
        } else {
            (true, "0"@)
        }
    } else {
        (false, c)
    }
}

/// The cells of a row paired with the column names, as far as both go.
pub open spec fn row_cells(headers: Seq<Seq<char>>, row: Seq<Seq<char>>) -> Seq<(Seq<char>, Cell)> {
    let n = if headers.len() <= row.len() { headers.len() } else { row.len() };
    Seq::new(n, |i: int| (headers[i], cell_of(row[i])))
}

/// The cell of column `k`: the last one of that name, as a map filled in order keeps it.
pub open spec fn row_cell(r: Seq<(Seq<char>, Cell)>, k: Seq<char>) -> Option<Cell>
    decreases r.len(),
{
    if r.len() == 0 {
        None
    } else if r.last().0 == k {
        Some(r.last().1)
    } else {
        row_cell(r.drop_last(), k)
    }
}

/// A path in a row: a single key names a column; any other path leads nowhere, since the
/// cells hold no members or elements.
pub open spec fn row_lookup(r: Seq<(Seq<char>, Cell)>, path: Seq<char>) -> Option<Cell> {
    match path_steps(path) {
        Some(st) => if st.len() == 1 {
            match st[0] {
                PathStep::Key(k) => row_cell(r, k),
                PathStep::Index(_) => None,
            }
        } else {
            None
        },
        None => None,
    }
}

/// The row's cells, standing for its properties.
pub open spec fn row_props(headers: Seq<Seq<char>>, row: Seq<Seq<char>>) -> PropsView {
    PropsView { props: None, geometry: None, row: Some(row_cells(headers, row)) }
}

/// A scalar value as a cell.
pub open spec fn json_cell(o: Option<JsonValue>) -> Option<Cell> {
    match o {
        Some(JsonValue::Number(s)) => Some((true, s@)),
        Some(JsonValue::String(s)) => Some((false, s@)),
        _ => None,
    }
}

/// The members `m` hold the columns of `r`, each with its cell.
pub open spec fn holds_cells(m: Seq<(String, JsonValue)>, r: Seq<(Seq<char>, Cell)>) -> bool {
    forall|k: Seq<char>|
        (#[trigger] member(m, k) is Some <==> row_cell(r, k) is Some) && json_cell(member(m, k)) == row_cell(r, k)
}

/// `p` is an object holding the columns of `r`, each with its cell.
pub open spec fn holds_row(p: JsonValue, r: Seq<(Seq<char>, Cell)>) -> bool {
    match p {
        JsonValue::Object(m) => holds_cells(m@, r),
        _ => false,
    }
}

proof fn lemma_step_new(before: Seq<(String, JsonValue)>, x: (String, JsonValue), a: (Seq<char>, Cell), suffix: Seq<(Seq<char>, Cell)>)
    requires
        holds_cells(before, suffix),
        x.0@ == a.0,
        json_cell(Some(x.1)) == Some(a.1),
        member(before, a.0) is None,
    ensures
        holds_cells(before.push(x), seq![a] + suffix),
{
    assert forall|k: Seq<char>|
        (#[trigger] member(before.push(x), k) is Some <==> row_cell(seq![a] + suffix, k) is Some)
            && json_cell(member(before.push(x), k)) == row_cell(seq![a] + suffix, k) by {
        lemma_member_push(before, x, k);
        lemma_row_cell_prepend(a, suffix, k);
        assert(member(before, k) is Some <==> row_cell(suffix, k) is Some);
        assert(json_cell(member(before, k)) == row_cell(suffix, k));
    }
}

proof fn lemma_step_present(m: Seq<(String, JsonValue)>, a: (Seq<char>, Cell), suffix: Seq<(Seq<char>, Cell)>)
    requires
        holds_cells(m, suffix),
        member(m, a.0) is Some,
    ensures
        holds_cells(m, seq![a] + suffix),
{
    assert forall|k: Seq<char>|
        (#[trigger] member(m, k) is Some <==> row_cell(seq![a] + suffix, k) is Some)
            && json_cell(member(m, k)) == row_cell(seq![a] + suffix, k) by {
        lemma_row_cell_prepend(a, suffix, k);
        assert(member(m, k) is Some <==> row_cell(suffix, k) is Some);
        assert(json_cell(member(m, k)) == row_cell(suffix, k));
        assert(member(m, a.0) is Some <==> row_cell(suffix, a.0) is Some);
    }
}

proof fn lemma_member_push(m: Seq<(String, JsonValue)>, x: (String, JsonValue), k: Seq<char>)
    ensures
        member(m.push(x), k) == if member(m, k) is Some {
            member(m, k)
        } else if x.0@ == k {
            Some(x.1)
        } else {
            None
        },
    decreases m.len(),
{
    if m.len() > 0 {
        assert(m.push(x)[0] == m[0]);
        assert(m.push(x).drop_first() =~= m.drop_first().push(x));
        lemma_member_push(m.drop_first(), x, k);
    } else {
        assert(m.push(x)[0] == x);
        assert(m.push(x).drop_first() =~= Seq::<(String, JsonValue)>::empty());
        assert(member(Seq::<(String, JsonValue)>::empty(), k) is None);
    }
}

proof fn lemma_row_cell_prepend(a: (Seq<char>, Cell), r: Seq<(Seq<char>, Cell)>, k: Seq<char>)
    ensures
        row_cell(seq![a] + r, k) == if row_cell(r, k) is Some {
            row_cell(r, k)
        } else if a.0 == k {
            Some(a.1)
        } else {
            None
        },
    decreases r.len(),
{
    if r.len() > 0 {
        assert((seq![a] + r).last() == r.last());
        assert((seq![a] + r).drop_last() =~= seq![a] + r.drop_last());
        lemma_row_cell_prepend(a, r.drop_last(), k);
    } else {
        assert(seq![a] + r =~= seq![a]);
        assert(seq![a].last() == a);
        assert(seq![a].drop_last() =~= Seq::<(Seq<char>, Cell)>::empty());
        assert(row_cell(Seq::<(Seq<char>, Cell)>::empty(), k) is None);
    }
}

fn cell_value(c: &String) -> (r: JsonValue)
    ensures
        json_cell(Some(r)) == Some(cell_of(c@)),
{
    let v = chars_of(c.as_str());
    if float_literal_ok(&v) {
        if crate::magnitude::finite_literal(&v) {
            JsonValue::Number(c.clone())
        } else {
            proof {
                reveal_strlit("0");
            }
            JsonValue::Number("0".to_string())
        }
    } else {
        JsonValue::String(c.clone())
    }
}

/// A CSV row as an object: each column (the last cell of a name kept) holds its cell as
/// `cell_of` classifies it (see `holds_row`).
pub fn csv_row_props(headers: &Vec<String>, row: &Vec<String>) -> (p: JsonValue)
    ensures
        holds_row(p, row_cells(headers@.map_values(|h: String| h@), row@.map_values(|c: String| c@))),
{
    let ghost hv = headers@.map_values(|h: String| h@);
    let ghost rv = row@.map_values(|c: String| c@);
    let ghost z = row_cells(hv, rv);
    let n = if headers.len() <= row.len() { headers.len() } else { row.len() };
    let mut members: Vec<(String, JsonValue)> = Vec::new();
    let mut j = n;
    assert(z.skip(n as int) =~= Seq::<(Seq<char>, Cell)>::empty());
    while j > 0
        invariant
            z == row_cells(hv, rv),
            hv == headers@.map_values(|h: String| h@),
            rv == row@.map_values(|c: String| c@),
            n == z.len(),
            n <= headers@.len(),
            n <= row@.len(),
            j <= n,
            holds_cells(members@, z.skip(j as int)),
        decreases j,
    {
        let i = j - 1;
        let ghost suffix = z.skip(j as int);
        assert(z.skip(i as int) =~= seq![z[i as int]] + suffix);
        assert(z[i as int] == (headers@[i as int]@, cell_of(row@[i as int]@)));
        let ghost before = members@;
        let key = &headers[i];
        let mut present = false;
        let mut q: usize = 0;
        while q < members.len()
            invariant
                q <= members@.len(),
                present <==> exists|t: int| 0 <= t < q && (#[trigger] members@[t]).0@ == key@,
            decreases members@.len() - q,
        {
            if str_eq(members[q].0.as_str(), key.as_str()) {
                present = true;
            }
            q = q + 1;
        }
        proof {
            lemma_member_some_iff(members@, key@);
        }
        if !present {
            let v = cell_value(&row[i]);
            let x = (key.clone(), v);
            members.push(x);
            proof {
                lemma_step_new(before, x, z[i as int], suffix);
            }
        } else {
            proof {
                lemma_step_present(before, z[i as int], suffix);
            }
        }
        j = i;
    }
    assert(z.skip(0) =~= z);
    JsonValue::Object(members)
}

proof fn lemma_member_some_iff(m: Seq<(String, JsonValue)>, k: Seq<char>)
    ensures
        member(m, k) is Some <==> exists|t: int| 0 <= t < m.len() && (#[trigger] m[t]).0@ == k,
    decreases m.len(),
{
    if m.len() > 0 {
        lemma_member_some_iff(m.drop_first(), k);
        if exists|t: int| 0 <= t < m.len() && (#[trigger] m[t]).0@ == k {
            let t = choose|t: int| 0 <= t < m.len() && (#[trigger] m[t]).0@ == k;
            if t > 0 {
                assert(m.drop_first()[t - 1] == m[t]);
            }
        }
        if exists|t: int| 0 <= t < m.drop_first().len() && (#[trigger] m.drop_first()[t]).0@ == k {
            let t = choose|t: int| 0 <= t < m.drop_first().len() && (#[trigger] m.drop_first()[t]).0@ == k;
            assert(m[t + 1] == m.drop_first()[t]);
        }
    }
}

proof fn lemma_walk_flat(p: JsonValue, z: Seq<(Seq<char>, Cell)>, st: Seq<PathStep<Seq<char>>>)
    requires
        holds_row(p, z),
        st.len() >= 1,
    ensures
        walk(p, st) == (if st.len() == 1 && st[0] is Key {
            member(p->Object_0@, st[0]->Key_0)
        } else {
            None
        }),
{
    let m = p->Object_0;
    match st[0] {
        PathStep::Key(k) => {
            let c = member(m@, k);
            assert(json_cell(c) == row_cell(z, k));
            assert(c is Some <==> row_cell(z, k) is Some);
            assert(json_step(p, st[0]) == c);
            match c {
                Some(x) => {
                    assert(x is Number || x is String);
                    if st.len() > 1 {
                        assert(st.drop_first()[0] == st[1]);
                        assert(json_step(x, st.drop_first()[0]) is None);
                        assert(walk(x, st.drop_first()) is None);
                    } else {
                        assert(st.drop_first().len() == 0);
                        assert(walk(x, st.drop_first()) == Some(x));
                    }
                },
                None => {},
            }
        },
        PathStep::Index(_) => {
            assert(json_step(p, st[0]) is None);
        },
    }
}

proof fn lemma_row_object_path(p: JsonValue, headers: Seq<Seq<char>>, row: Seq<Seq<char>>, path: Seq<char>)
    requires
        holds_row(p, row_cells(headers, row)),
    ensures
        text_in(PropsView { props: Some(p), geometry: None, row: None }, path) == text_in(row_props(headers, row), path),
        number_in(PropsView { props: Some(p), geometry: None, row: None }, path) == number_in(row_props(headers, row), path),
{
    let z = row_cells(headers, row);
    let v = PropsView { props: Some(p), geometry: None, row: None };
    lemma_path_steps_nonempty(path);
    match path_steps(path) {
        Some(st) => {
            lemma_walk_flat(p, z, st);
            assert(resolve_in(v, path) == walk(p, st));
            if st.len() == 1 && st[0] is Key {
                let k = st[0]->Key_0;
                let c = member(p->Object_0@, k);
                assert(json_cell(c) == row_cell(z, k));
                assert(c is Some <==> row_cell(z, k) is Some);
                assert(row_lookup(z, path) == row_cell(z, k));
            } else {
                assert(row_lookup(z, path) is None);
            }
        },
        None => {},
    }
}

/// An object that holds a row's cells is looked up as the row is: same texts, same
/// numbers, for every path.
pub proof fn lemma_row_object_lookup(p: JsonValue, headers: Seq<Seq<char>>, row: Seq<Seq<char>>)
    requires
        holds_row(p, row_cells(headers, row)),
    ensures
        forall|path: Seq<char>| #[trigger] text_in(PropsView { props: Some(p), geometry: None, row: None }, path)
            == text_in(row_props(headers, row), path),
        forall|path: Seq<char>| #[trigger] number_in(PropsView { props: Some(p), geometry: None, row: None }, path)
            == number_in(row_props(headers, row), path),
{
    assert forall|path: Seq<char>| #[trigger] text_in(PropsView { props: Some(p), geometry: None, row: None }, path)
        == text_in(row_props(headers, row), path) by {
        lemma_row_object_path(p, headers, row, path);
    }
    assert forall|path: Seq<char>| #[trigger] number_in(PropsView { props: Some(p), geometry: None, row: None }, path)
        == number_in(row_props(headers, row), path) by {
        lemma_row_object_path(p, headers, row, path);
    }
}

} // verus!
