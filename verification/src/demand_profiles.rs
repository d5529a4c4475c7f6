//! Per-node demand profiles read from CSV: `node_id,category,q0_m3h,alpha_m3h_per_c,t_threshold_c[,max_heating_m3h]`.

use vstd::prelude::*;

use crate::csvtable::{
    CsvTable, field, fields_view, find_column, header_matches, read_csv, row_view, spec_field,
    spec_find_column, table_view, csv_table, TableView,
};
use crate::decimal::{float_literal_ok, is_float_literal};
use crate::import_error::{aliases, error_view, spec_aliases, Column, ImportError};
use crate::labels::trimmed_lower;
use crate::text::{ascii_lower, chars_of, eq_lit, string_of_range, trim};

verus! {

/// Kind of client behind a delivery point.
#[derive(Debug, Clone, Copy, PartialEq, Eq, Structural)]
pub enum ClientCategory {
    Residential,
    Tertiary,
    Industrial,
}

pub open spec fn spec_category(raw: Seq<char>) -> Result<Option<ClientCategory>, Seq<char>> {
    let l = ascii_lower(trim(raw));
    if l == "residential"@ || l == "residentiel"@ || l == "résidentiel"@ || l == "domestic"@
        || l == "pl_residentiel"@ || l == "pl_res"@ || l == "res_pl"@ {
        Ok(Some(ClientCategory::Residential))
    } else if l == "tertiary"@ || l == "tertiaire"@ || l == "pl_tertiaire"@ || l == "pl_ter"@
        || l == "ter_pl"@ {
        Ok(Some(ClientCategory::Tertiary))
    } else if l == "industrial"@ || l == "industriel"@ || l == "pl_industriel"@ || l == "pl_ind"@
        || l == "ind_pl"@ {
        Ok(Some(ClientCategory::Industrial))
    } else if l == ""@ || l == "custom"@ || l == "other"@ || l == "pl"@ || l == "point_livraison"@
        || l == "livraison"@ || l == "pdl"@ {
        Ok(None)
    } else {
        Err(l)
    }
}

/// Category named by `raw` (trimmed, ASCII case ignored); a plain delivery point or a
/// custom profile has none; any other text is refused, and the error holds it as compared.
pub fn parse_category(raw: &str) -> (r: Result<Option<ClientCategory>, String>)
    ensures
        match r {
            Ok(c) => spec_category(raw@) == Ok::<Option<ClientCategory>, Seq<char>>(c),
            Err(e) => spec_category(raw@) == Err::<Option<ClientCategory>, Seq<char>>(e@),
        },
{
    let l = trimmed_lower(raw);
    if eq_lit(&l, "residential") || eq_lit(&l, "residentiel") || eq_lit(&l, "résidentiel")
        || eq_lit(&l, "domestic") || eq_lit(&l, "pl_residentiel") || eq_lit(&l, "pl_res")
        || eq_lit(&l, "res_pl") {
        Ok(Some(ClientCategory::Residential))
    } else if eq_lit(&l, "tertiary") || eq_lit(&l, "tertiaire") || eq_lit(&l, "pl_tertiaire")
        || eq_lit(&l, "pl_ter") || eq_lit(&l, "ter_pl") {
        Ok(Some(ClientCategory::Tertiary))
    } else if eq_lit(&l, "industrial") || eq_lit(&l, "industriel") || eq_lit(&l, "pl_industriel")
        || eq_lit(&l, "pl_ind") || eq_lit(&l, "ind_pl") {
        Ok(Some(ClientCategory::Industrial))
    } else if eq_lit(&l, "") || eq_lit(&l, "custom") || eq_lit(&l, "other") || eq_lit(&l, "pl")
        || eq_lit(&l, "point_livraison") || eq_lit(&l, "livraison") || eq_lit(&l, "pdl") {
        Ok(None)
    } else {
        let s = string_of_range(&l, 0, l.len());
        assert(l@.subrange(0, l@.len() as int) == l@);
        Err(s)
    }
}

/// Where the maximum heating demand of a profile comes from.
#[derive(Debug, PartialEq, Eq)]
pub enum MaxHeating<S> {
    /// Written in the row (the literal as read).
    Given(S),
    /// Not written: the preset of the category applies.
    Preset(ClientCategory),
    /// Not written and no category: no maximum.
    Unset,
}

/// One profile row; the numbers are kept as the literals read, each one that
/// `f64::from_str` accepts.
#[derive(Debug, PartialEq, Eq)]
pub struct DemandProfileRow<S> {
    pub node_id: S,
    pub category: Option<ClientCategory>,
    pub q0_m3h: S,
    pub alpha_m3h_per_c: S,
    pub t_threshold_c: S,
    pub max_heating_m3h: MaxHeating<S>,
}

pub open spec fn profile_view(r: DemandProfileRow<String>) -> DemandProfileRow<Seq<char>> {
    DemandProfileRow {
        node_id: r.node_id@,
        category: r.category,
        q0_m3h: r.q0_m3h@,
        alpha_m3h_per_c: r.alpha_m3h_per_c@,
        t_threshold_c: r.t_threshold_c@,
        max_heating_m3h: match r.max_heating_m3h {
            MaxHeating::Given(s) => MaxHeating::Given(s@),
            MaxHeating::Preset(c) => MaxHeating::Preset(c),
            MaxHeating::Unset => MaxHeating::Unset,
        },
    }
}

/// The columns found in the header row.
#[derive(Debug, Clone, Copy, PartialEq, Eq, Structural)]
pub struct DemandColumns {
    pub node: usize,
    pub category: usize,
    pub q0: usize,
    pub alpha: usize,
    pub threshold: usize,
    pub max_heating: Option<usize>,
}

/// The first column matching the aliases of `c`.
pub open spec fn first_column(headers: Seq<Seq<char>>, c: Column) -> Option<usize> {
    if exists|i: usize| spec_find_column(headers, spec_aliases(c), Some(i)) {
        Some(choose|i: usize| spec_find_column(headers, spec_aliases(c), Some(i)))
    } else {
        None
    }
}

pub proof fn lemma_first_column(headers: Seq<Seq<char>>, c: Column, r: Option<usize>)
    requires
        spec_find_column(headers, spec_aliases(c), r),
    ensures
        r == first_column(headers, c),
{
    if let Some(i) = r {
        let j = choose|j: usize| spec_find_column(headers, spec_aliases(c), Some(j));
        if j < i {
            assert(header_matches(headers[j as int], spec_aliases(c)));
        } else if i < j {
            assert(header_matches(headers[i as int], spec_aliases(c)));
        }
    } else {
        if exists|i: usize| spec_find_column(headers, spec_aliases(c), Some(i)) {
            let i = choose|i: usize| spec_find_column(headers, spec_aliases(c), Some(i));
            assert(header_matches(headers[i as int], spec_aliases(c)));
        }
    }
}

pub open spec fn spec_demand_columns(headers: Seq<Seq<char>>) -> Result<DemandColumns, Column> {
    match (first_column(headers, Column::NodeId), first_column(headers, Column::Category), first_column(headers, Column::Q0),
        first_column(headers, Column::Alpha), first_column(headers, Column::Threshold)) {
        (None, _, _, _, _) => Err(Column::NodeId),
        (Some(_), None, _, _, _) => Err(Column::Category),
        (Some(_), Some(_), None, _, _) => Err(Column::Q0),
        (Some(_), Some(_), Some(_), None, _) => Err(Column::Alpha),
        (Some(_), Some(_), Some(_), Some(_), None) => Err(Column::Threshold),
        (Some(n), Some(c), Some(q), Some(a), Some(t)) => Ok(DemandColumns {
            node: n,
            category: c,
            q0: q,
            alpha: a,
            threshold: t,
            max_heating: first_column(headers, Column::MaxHeating),
        }),
    }
}

pub fn column(headers: &Vec<String>, c: Column) -> (r: Option<usize>)
    ensures
        r == first_column(fields_view(*headers), c),
{
    let al = aliases(c);
    let r = find_column(headers, &al);
    proof {
        lemma_first_column(fields_view(*headers), c, r);
    }
    r
}

fn demand_columns(headers: &Vec<String>) -> (r: Result<DemandColumns, Column>)
    ensures
        r == spec_demand_columns(fields_view(*headers)),
{
    let n = match column(headers, Column::NodeId) { Some(i) => i, None => return Err(Column::NodeId) };
    let c = match column(headers, Column::Category) { Some(i) => i, None => return Err(Column::Category) };
    let q = match column(headers, Column::Q0) { Some(i) => i, None => return Err(Column::Q0) };
    let a = match column(headers, Column::Alpha) { Some(i) => i, None => return Err(Column::Alpha) };
    let t = match column(headers, Column::Threshold) { Some(i) => i, None => return Err(Column::Threshold) };
    let m = column(headers, Column::MaxHeating);
    Ok(DemandColumns { node: n, category: c, q0: q, alpha: a, threshold: t, max_heating: m })
}

/// A numeric field: present and a literal that `f64::from_str` accepts.
pub open spec fn number_field(row: Seq<Seq<char>>, idx: usize, c: Column) -> Result<Seq<char>, ImportError<Seq<char>>> {
    match spec_field(row, idx as int) {
        None => Err(ImportError::MissingField { column: c }),
        Some(t) => if is_float_literal(t) {
            Ok(t)
        } else {
            Err(ImportError::InvalidNumber { column: c, text: t })
        },
    }
}

/// The profile of one row, given the node identifiers of the rows before it.
#[verifier::opaque]
pub open spec fn demand_row(cols: DemandColumns, row: Seq<Seq<char>>, seen: Seq<Seq<char>>) -> Result<
    DemandProfileRow<Seq<char>>,
    ImportError<Seq<char>>,
> {
    match spec_field(row, cols.node as int) {
        None => Err(ImportError::MissingField { column: Column::NodeId }),
        Some(id) => if seen.contains(id) {
            Err(ImportError::DuplicateNodeId { node_id: id })
        } else {
            match spec_field(row, cols.category as int) {
                None => Err(ImportError::MissingField { column: Column::Category }),
                Some(ctext) => match spec_category(ctext) {
                    Err(u) => Err(ImportError::UnknownCategory { category: u }),
                    Ok(cat) => match number_field(row, cols.q0, Column::Q0) {
                        Err(e) => Err(e),
                        Ok(q) => match number_field(row, cols.alpha, Column::Alpha) {
                            Err(e) => Err(e),
                            Ok(a) => match number_field(row, cols.threshold, Column::Threshold) {
                                Err(e) => Err(e),
                                Ok(t) => {
                                    let default = match cat {
                                        Some(c) => MaxHeating::Preset(c),
                                        None => MaxHeating::Unset,
                                    };
                                    let maxh = match cols.max_heating {
                                        None => Ok(default),
                                        Some(mi) => match spec_field(row, mi as int) {
                                            None => Ok(default),
                                            Some(raw) => if is_float_literal(raw) {
                                                Ok(MaxHeating::Given(raw))
                                            } else {
                                                Err(ImportError::InvalidNumber { column: Column::MaxHeating, text: raw })
                                            },
                                        },
                                    };
                                    match maxh {
                                        Err(e) => Err(e),
                                        Ok(mh) => Ok(DemandProfileRow {
                                            node_id: id,
                                            category: cat,
                                            q0_m3h: q,
                                            alpha_m3h_per_c: a,
                                            t_threshold_c: t,
                                            max_heating_m3h: mh,
                                        }),
                                    }
                                },
                            },
                        },
                    },
                },
            }
        }
    }
}

/// The profiles of the first `n` rows, or the first error met.
pub open spec fn demand_rows(cols: DemandColumns, rows: Seq<Result<Seq<Seq<char>>, Seq<char>>>, n: int) -> Result<
    Seq<DemandProfileRow<Seq<char>>>,
    ImportError<Seq<char>>,
>
    decreases n,
{
    if n <= 0 {
        Ok(Seq::empty())
    } else {
        match demand_rows(cols, rows, n - 1) {
            Err(e) => Err(e),
            Ok(acc) => match rows[n - 1] {
                Err(m) => Err(ImportError::Csv { message: m }),
                Ok(row) => match demand_row(cols, row, acc.map_values(|p: DemandProfileRow<Seq<char>>| p.node_id)) {
                    Err(e) => Err(e),
                    Ok(p) => Ok(acc.push(p)),
                },
            },
        }
    }
}

/// No node identifier occurs twice among the profiles.
pub open spec fn node_ids_distinct(ps: Seq<DemandProfileRow<Seq<char>>>) -> bool {
    forall|i: int, j: int| 0 <= i < j < ps.len() ==> #[trigger] ps[i].node_id != #[trigger] ps[j].node_id
}

proof fn lemma_demand_rows_distinct(cols: DemandColumns, rows: Seq<Result<Seq<Seq<char>>, Seq<char>>>, n: int)
    requires
        demand_rows(cols, rows, n) is Ok,
    ensures
        node_ids_distinct(demand_rows(cols, rows, n)->Ok_0),
    decreases n,
{
    if n > 0 {
        lemma_demand_rows_distinct(cols, rows, n - 1);
        let acc = demand_rows(cols, rows, n - 1)->Ok_0;
        let row = rows[n - 1]->Ok_0;
        let ids = acc.map_values(|p: DemandProfileRow<Seq<char>>| p.node_id);
        let p = demand_row(cols, row, ids)->Ok_0;
        reveal(demand_row);
        assert(!ids.contains(p.node_id));
        let ps = acc.push(p);
        assert forall|i: int, j: int| 0 <= i < j < ps.len() implies #[trigger] ps[i].node_id
            != #[trigger] ps[j].node_id by {
            if j == ps.len() - 1 {
                assert(ids[i] == acc[i].node_id);
            }
        }
    }
}

/// The profiles that the reader accepts are keyed by node: no node identifier occurs twice.
pub proof fn lemma_demand_profiles_distinct(t: TableView)
    requires
        spec_demand_profiles(t) is Ok,
    ensures
        node_ids_distinct(spec_demand_profiles(t)->Ok_0),
{
    let cols = spec_demand_columns(t.0->Ok_0)->Ok_0;
    lemma_demand_rows_distinct(cols, t.1, t.1.len() as int);
}

/// What `parse_demand_profiles_csv` answers for a table read from CSV.
pub open spec fn spec_demand_profiles(t: TableView) -> Result<Seq<DemandProfileRow<Seq<char>>>, ImportError<Seq<char>>> {
    match t.0 {
        Err(m) => Err(ImportError::Csv { message: m }),
        Ok(headers) => match spec_demand_columns(headers) {
            Err(c) => Err(ImportError::MissingColumn { column: c }),
            Ok(cols) => demand_rows(cols, t.1, t.1.len() as int),
        },
    }
}

proof fn lemma_rows_error_stays(cols: DemandColumns, rows: Seq<Result<Seq<Seq<char>>, Seq<char>>>, n: int, m: int)
    requires
        0 <= n <= m,
        demand_rows(cols, rows, n) is Err,
    ensures
        demand_rows(cols, rows, m) == demand_rows(cols, rows, n),
    decreases m - n,
{
    if m > n {
        lemma_rows_error_stays(cols, rows, n, m - 1);
    }
}

fn number_field_exec(row: &Vec<String>, idx: usize, c: Column) -> (r: Result<String, ImportError<String>>)
    ensures
        match r {
            Ok(s) => number_field(fields_view(*row), idx, c) == Ok::<Seq<char>, ImportError<Seq<char>>>(s@),
            Err(e) => number_field(fields_view(*row), idx, c) == Err::<Seq<char>, ImportError<Seq<char>>>(error_view(e)),
        },
{
    match field(row, idx) {
        None => Err(ImportError::MissingField { column: c }),
        Some(t) => {
            let v = chars_of(t.as_str());
            if float_literal_ok(&v) {
                Ok(t)
            } else {
                Err(ImportError::InvalidNumber { column: c, text: t })
            }
        },
    }
}

fn contains_id(seen: &Vec<DemandProfileRow<String>>, id: &String) -> (r: bool)
    ensures
        r == seen@.map_values(|p: DemandProfileRow<String>| profile_view(p)).map_values(|p: DemandProfileRow<Seq<char>>| p.node_id).contains(id@),
{
    let ghost ids = seen@.map_values(|p: DemandProfileRow<String>| profile_view(p)).map_values(|p: DemandProfileRow<Seq<char>>| p.node_id);
    let mut i: usize = 0;
    while i < seen.len()
        invariant
            ids == seen@.map_values(|p: DemandProfileRow<String>| profile_view(p)).map_values(|p: DemandProfileRow<Seq<char>>| p.node_id),
            i <= seen@.len(),
            forall|j: int| 0 <= j < i ==> ids[j] != id@,
        decreases seen@.len() - i,
    {
        if seen[i].node_id == *id {
            assert(ids[i as int] == id@);
            return true;
        }
        i = i + 1;
    }
    false
}

fn parse_row(cols: &DemandColumns, row: &Vec<String>, seen: &Vec<DemandProfileRow<String>>) -> (r: Result<DemandProfileRow<String>, ImportError<String>>)
    ensures
        match r {
            Ok(p) => demand_row(*cols, fields_view(*row), seen@.map_values(|p: DemandProfileRow<String>| profile_view(p)).map_values(|p: DemandProfileRow<Seq<char>>| p.node_id))
                == Ok::<DemandProfileRow<Seq<char>>, ImportError<Seq<char>>>(profile_view(p)),
            Err(e) => demand_row(*cols, fields_view(*row), seen@.map_values(|p: DemandProfileRow<String>| profile_view(p)).map_values(|p: DemandProfileRow<Seq<char>>| p.node_id))
                == Err::<DemandProfileRow<Seq<char>>, ImportError<Seq<char>>>(error_view(e)),
        },
{
    reveal(demand_row);
    let id = match field(row, cols.node) {
        None => return Err(ImportError::MissingField { column: Column::NodeId }),
        Some(id) => id,
    };
    if contains_id(seen, &id) {
        return Err(ImportError::DuplicateNodeId { node_id: id });
    }
    let ctext = match field(row, cols.category) {
        None => return Err(ImportError::MissingField { column: Column::Category }),
        Some(c) => c,
    };
    let cat = match parse_category(ctext.as_str()) {
        Err(u) => return Err(ImportError::UnknownCategory { category: u }),
        Ok(c) => c,
    };
    let q = match number_field_exec(row, cols.q0, Column::Q0) { Err(e) => return Err(e), Ok(s) => s };
    let a = match number_field_exec(row, cols.alpha, Column::Alpha) { Err(e) => return Err(e), Ok(s) => s };
    let t = match number_field_exec(row, cols.threshold, Column::Threshold) { Err(e) => return Err(e), Ok(s) => s };
    let default = match cat {
        Some(c) => MaxHeating::Preset(c),
        None => MaxHeating::Unset,
    };
    let mh = match cols.max_heating {
        None => default,
        Some(mi) => match field(row, mi) {
            None => default,
            Some(raw) => {
                let v = chars_of(raw.as_str());
                if float_literal_ok(&v) {
                    MaxHeating::Given(raw)
                } else {
                    return Err(ImportError::InvalidNumber { column: Column::MaxHeating, text: raw });
                }
            },
        },
    };
    Ok(DemandProfileRow { node_id: id, category: cat, q0_m3h: q, alpha_m3h_per_c: a, t_threshold_c: t, max_heating_m3h: mh })
}

/// Profiles of a table read from CSV: the header row must name the node, category, base
/// demand, gradient and threshold columns (an optional maximum-heating column may follow);
/// every row needs a node not seen before, a known category and numeric fields.
pub fn demand_profiles_from_table(table: &CsvTable) -> (r: Result<Vec<DemandProfileRow<String>>, ImportError<String>>)
    ensures
        match r {
            Ok(v) => spec_demand_profiles(table_view(*table)) == Ok::<Seq<DemandProfileRow<Seq<char>>>, ImportError<Seq<char>>>(
                v@.map_values(|p: DemandProfileRow<String>| profile_view(p))),
            Err(e) => spec_demand_profiles(table_view(*table)) == Err::<Seq<DemandProfileRow<Seq<char>>>, ImportError<Seq<char>>>(error_view(e)),
        },
{
    let headers = match &table.headers {
        Err(m) => return Err(ImportError::Csv { message: m.clone() }),
        Ok(h) => h,
    };
    let cols = match demand_columns(headers) {
        Err(c) => return Err(ImportError::MissingColumn { column: c }),
        Ok(c) => c,
    };
    let ghost tv = table_view(*table);
    let mut out: Vec<DemandProfileRow<String>> = Vec::new();
    assert(out@.map_values(|p: DemandProfileRow<String>| profile_view(p)) =~= Seq::<DemandProfileRow<Seq<char>>>::empty());
    let mut i: usize = 0;
    while i < table.rows.len()
        invariant
            tv == table_view(*table),
            tv.0 == Ok::<Seq<Seq<char>>, Seq<char>>(fields_view(*headers)),
            spec_demand_columns(fields_view(*headers)) == Ok::<DemandColumns, Column>(cols),
            i <= table.rows@.len(),
            demand_rows(cols, tv.1, i as int) == Ok::<Seq<DemandProfileRow<Seq<char>>>, ImportError<Seq<char>>>(
                out@.map_values(|p: DemandProfileRow<String>| profile_view(p))),
        decreases table.rows@.len() - i,
    {
        assert(tv.1[i as int] == row_view(table.rows@[i as int]));
        let row = match &table.rows[i] {
            Err(m) => {
                let e = ImportError::Csv { message: m.clone() };
                proof {
                    lemma_rows_error_stays(cols, tv.1, i + 1, tv.1.len() as int);
                }
                return Err(e);
            },
            Ok(r) => r,
        };
        match parse_row(&cols, row, &out) {
            Err(e) => {
                proof {
                    lemma_rows_error_stays(cols, tv.1, i + 1, tv.1.len() as int);
                }
                return Err(e);
            },
            Ok(p) => {
                let ghost before = out@.map_values(|p: DemandProfileRow<String>| profile_view(p));
                out.push(p);
                assert(out@.map_values(|p: DemandProfileRow<String>| profile_view(p)) == before.push(profile_view(p)));
            },
        }
        i = i + 1;
    }
    Ok(out)
}

/// Profiles of the CSV text `content` (see `demand_profiles_from_table`).
pub fn parse_demand_profiles_csv(content: &str) -> (r: Result<Vec<DemandProfileRow<String>>, ImportError<String>>)
    ensures
        match r {
            Ok(v) => spec_demand_profiles(csv_table(content@)) == Ok::<Seq<DemandProfileRow<Seq<char>>>, ImportError<Seq<char>>>(
                v@.map_values(|p: DemandProfileRow<String>| profile_view(p))),
            Err(e) => spec_demand_profiles(csv_table(content@)) == Err::<Seq<DemandProfileRow<Seq<char>>>, ImportError<Seq<char>>>(error_view(e)),
        },
{
    let table = read_csv(content);
    demand_profiles_from_table(&table)
}

/// The maximum heating demand, in m³/h, of a category's preset profile: 220 for a
/// residential client, 120 for a tertiary one; an industrial client has no such cap.
pub fn preset_max_heating_m3h(c: ClientCategory) -> (r: Option<u32>)
    ensures
        r == match c {
            ClientCategory::Residential => Some(220u32),
            ClientCategory::Tertiary => Some(120u32),
            ClientCategory::Industrial => None::<u32>,
        },
{
    match c {
        ClientCategory::Residential => Some(220),
        ClientCategory::Tertiary => Some(120),
        ClientCategory::Industrial => None,
    }
}

} // verus!
