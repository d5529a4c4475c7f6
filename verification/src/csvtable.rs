//! Reading delimited text with the csv crate, and the column and field lookups on its rows.

use vstd::prelude::*;

use crate::labels::trimmed_lower;
use crate::text::{ascii_lower, eq_lit, trim, trimmed_string};

verus! {

/// The header row and the data rows read from a text: each is either its fields or the
/// message of the error met while reading it.
pub struct CsvTable {
    pub headers: Result<Vec<String>, String>,
    pub rows: Vec<Result<Vec<String>, String>>,
}

pub open spec fn fields_view(v: Vec<String>) -> Seq<Seq<char>> {
    v@.map_values(|s: String| s@)
}

pub open spec fn row_view(r: Result<Vec<String>, String>) -> Result<Seq<Seq<char>>, Seq<char>> {
    match r {
        Ok(v) => Ok(fields_view(v)),
        Err(e) => Err(e@),
    }
}

pub type TableView = (Result<Seq<Seq<char>>, Seq<char>>, Seq<Result<Seq<Seq<char>>, Seq<char>>>);

pub open spec fn table_view(t: CsvTable) -> TableView {
    (row_view(t.headers), t.rows@.map_values(|r: Result<Vec<String>, String>| row_view(r)))
}

/// What the csv crate's reader, with its default settings (comma separated, first row
/// the header, every row as long as the header), reads from `content`.
pub uninterp spec fn csv_table(content: Seq<char>) -> TableView;

/// Reads `content` as CSV.
///
/// Trusted: builds a `csv::Reader` over the bytes of `content` with
/// `csv::Reader::from_reader`, takes its `headers()` and then every item of its
/// `records()`; a record becomes its fields as strings, an error its message. The
/// contract only claims that the result is a function of `content` (the name
/// `csv_table`); what the csv grammar does is not restated here.
#[verifier::external_body]
pub(crate) fn read_csv(content: &str) -> (t: CsvTable)
    ensures
        table_view(t) == csv_table(content@),
{
    let mut rdr = csv::Reader::from_reader(content.as_bytes());
    let headers = match rdr.headers() {
        Ok(h) => Ok(h.iter().map(|f| f.to_string()).collect()),
        Err(e) => Err(e.to_string()),
    };
    let rows = rdr.records().map(|r| match r {
        Ok(rec) => Ok(rec.iter().map(|f| f.to_string()).collect()),
        Err(e) => Err(e.to_string()),
    }).collect();
    CsvTable { headers, rows }
}

/// A header matches an alias when, trimmed and ASCII lower-cased, it equals it.
pub open spec fn header_matches(header: Seq<char>, aliases: Seq<Seq<char>>) -> bool {
    aliases.contains(ascii_lower(trim(header)))
}

/// The first column whose header matches one of `aliases`.
pub open spec fn spec_find_column(headers: Seq<Seq<char>>, aliases: Seq<Seq<char>>, r: Option<usize>) -> bool {
    match r {
        Some(i) => i < headers.len() && header_matches(headers[i as int], aliases) && forall|j: int|
            0 <= j < i ==> !#[trigger] header_matches(headers[j], aliases),
        None => forall|j: int| 0 <= j < headers.len() ==> !#[trigger] header_matches(headers[j], aliases),
    }
}

pub open spec fn strs_view(v: Seq<&str>) -> Seq<Seq<char>> {
    v.map_values(|s: &str| s@)
}

/// Position of the first header matching one of `aliases`.
pub fn find_column(headers: &Vec<String>, aliases: &Vec<&str>) -> (r: Option<usize>)
    ensures
        spec_find_column(fields_view(*headers), strs_view(aliases@), r),
{
    let ghost hs = fields_view(*headers);
    let ghost al = strs_view(aliases@);
    let mut i: usize = 0;
    while i < headers.len()
        invariant
            hs == fields_view(*headers),
            al == strs_view(aliases@),
            i <= headers@.len(),
            forall|j: int| 0 <= j < i ==> !#[trigger] header_matches(hs[j], al),
        decreases headers@.len() - i,
    {
        let h = trimmed_lower(headers[i].as_str());
        let mut a: usize = 0;
        while a < aliases.len()
            invariant
                al == strs_view(aliases@),
                a <= aliases@.len(),
                h@ == ascii_lower(trim(hs[i as int])),
                hs == fields_view(*headers),
                i < headers@.len(),
                forall|j: int| 0 <= j < i ==> !#[trigger] header_matches(hs[j], al),
                forall|b: int| 0 <= b < a ==> al[b] != h@,
            decreases aliases@.len() - a,
        {
            if eq_lit(&h, aliases[a]) {
                proof {
                    assert(al[a as int] == h@);
                    assert(al.contains(h@));
                }
                return Some(i);
            }
            a = a + 1;
        }
        proof {
            assert(!al.contains(h@)) by {
                if al.contains(h@) {
                    let b = choose|b: int| 0 <= b < al.len() && al[b] == h@;
                }
            }
        }
        i = i + 1;
    }
    None
}

/// The trimmed field at `idx`, when the row has one and it is not blank.
pub open spec fn spec_field(row: Seq<Seq<char>>, idx: int) -> Option<Seq<char>> {
    if 0 <= idx < row.len() && trim(row[idx]).len() > 0 {
        Some(trim(row[idx]))
    } else {
        None
    }
}

/// Field `idx` of `row`, trimmed; `None` when it is missing or blank.
pub fn field(row: &Vec<String>, idx: usize) -> (r: Option<String>)
    ensures
        match r {
            Some(s) => spec_field(fields_view(*row), idx as int) == Some(s@),
            None => spec_field(fields_view(*row), idx as int) is None,
        },
{
    if idx >= row.len() {
        return None;
    }
    let s = trimmed_string(row[idx].as_str());
    if s.as_str().unicode_len() == 0 {
        None
    } else {
        Some(s)
    }
}

} // verus!
