//! Networks imported from two CSV texts, one of nodes and one of pipes, each row read
//! through the mapping as the properties of a feature.

use vstd::prelude::*;

use crate::csvtable::{csv_table, read_csv, row_view, TableView};
use crate::geojson::{nodes_view, pipes_view, ImportedNetwork};
use crate::mapping::{
    lemma_same_lookups_node, lemma_same_lookups_pipe, plain, raw_node_from_properties, raw_pipe_from_properties,
    raw_node_view, raw_pipe_view, spec_raw_node, spec_raw_pipe, MappingConfig, MappingError, NodeMapping,
    PipeMapping, RawNode, RawNodeView, RawPipe, RawPipeView,
};
use crate::properties::{csv_row_props, lemma_row_object_lookup, row_props};

verus! {

/// Why a CSV network could not be imported.
#[derive(Debug, Clone, PartialEq, Eq)]
pub enum CsvImportError {
    /// The csv reader failed on the header or on a row; its message.
    Csv(String),
    /// A row could not be read through the mapping.
    Mapping(MappingError),
}

pub enum CsvImportErrorView {
    Csv(Seq<char>),
    Mapping(MappingError),
}

pub open spec fn csv_error_view(e: CsvImportError) -> CsvImportErrorView {
    match e {
        CsvImportError::Csv(m) => CsvImportErrorView::Csv(m@),
        CsvImportError::Mapping(x) => CsvImportErrorView::Mapping(x),
    }
}

pub type Rows = Seq<Result<Seq<Seq<char>>, Seq<char>>>;

/// The nodes of the rows in order, each row's cells named by the header; the first row
/// the reader failed on, or that cannot be read through the mapping, gives the error.
pub open spec fn nodes_of_rows(h: Seq<Seq<char>>, rows: Rows, m: NodeMapping) -> Result<Seq<RawNodeView>, CsvImportErrorView>
    decreases rows.len(),
{
    if rows.len() == 0 {
        Ok(Seq::empty())
    } else {
        match nodes_of_rows(h, rows.drop_last(), m) {
            Err(e) => Err(e),
            Ok(ns) => match rows.last() {
                Err(e) => Err(CsvImportErrorView::Csv(e)),
                Ok(cells) => match spec_raw_node(row_props(h, cells), m) {
                    Ok(n) => Ok(ns.push(n)),
                    Err(e) => Err(CsvImportErrorView::Mapping(e)),
                },
            },
        }
    }
}

/// The pipes of the rows in order (see `nodes_of_rows`).
pub open spec fn pipes_of_rows(h: Seq<Seq<char>>, rows: Rows, m: PipeMapping) -> Result<Seq<RawPipeView>, CsvImportErrorView>
    decreases rows.len(),
{
    if rows.len() == 0 {
        Ok(Seq::empty())
    } else {
        match pipes_of_rows(h, rows.drop_last(), m) {
            Err(e) => Err(e),
            Ok(ps) => match rows.last() {
                Err(e) => Err(CsvImportErrorView::Csv(e)),
                Ok(cells) => match spec_raw_pipe(row_props(h, cells), m) {
                    Ok(p) => Ok(ps.push(p)),
                    Err(e) => Err(CsvImportErrorView::Mapping(e)),
                },
            },
        }
    }
}

pub open spec fn csv_nodes(t: TableView, m: NodeMapping) -> Result<Seq<RawNodeView>, CsvImportErrorView> {
    match t.0 {
        Err(e) => Err(CsvImportErrorView::Csv(e)),
        Ok(h) => nodes_of_rows(h, t.1, m),
    }
}

pub open spec fn csv_pipes(t: TableView, m: PipeMapping) -> Result<Seq<RawPipeView>, CsvImportErrorView> {
    match t.0 {
        Err(e) => Err(CsvImportErrorView::Csv(e)),
        Ok(h) => pipes_of_rows(h, t.1, m),
    }
}

/// The nodes of the node text, then the pipes of the pipe text; the first error met.
pub open spec fn csv_import(nodes_csv: Seq<char>, pipes_csv: Seq<char>, m: MappingConfig) -> Result<(Seq<RawNodeView>, Seq<RawPipeView>), CsvImportErrorView> {
    match csv_nodes(csv_table(nodes_csv), m.nodes) {
        Err(e) => Err(e),
        Ok(ns) => match csv_pipes(csv_table(pipes_csv), m.pipes) {
            Err(e) => Err(e),
            Ok(ps) => Ok((ns, ps)),
        },
    }
}

proof fn lemma_nodes_error_stays(h: Seq<Seq<char>>, rows: Rows, m: NodeMapping, k: int)
    requires
        0 <= k <= rows.len(),
        nodes_of_rows(h, rows.take(k), m) is Err,
    ensures
        nodes_of_rows(h, rows, m) == nodes_of_rows(h, rows.take(k), m),
    decreases rows.len() - k,
{
    if k < rows.len() {
        assert(rows.take(k + 1).drop_last() =~= rows.take(k));
        lemma_nodes_error_stays(h, rows, m, k + 1);
    } else {
        assert(rows.take(k) =~= rows);
    }
}

proof fn lemma_pipes_error_stays(h: Seq<Seq<char>>, rows: Rows, m: PipeMapping, k: int)
    requires
        0 <= k <= rows.len(),
        pipes_of_rows(h, rows.take(k), m) is Err,
    ensures
        pipes_of_rows(h, rows, m) == pipes_of_rows(h, rows.take(k), m),
    decreases rows.len() - k,
{
    if k < rows.len() {
        assert(rows.take(k + 1).drop_last() =~= rows.take(k));
        lemma_pipes_error_stays(h, rows, m, k + 1);
    } else {
        assert(rows.take(k) =~= rows);
    }
}

fn parse_nodes_csv(raw: &str, mapping: &MappingConfig) -> (r: Result<Vec<RawNode>, CsvImportError>)
    ensures
        match csv_nodes(csv_table(raw@), mapping.nodes) {
            Ok(ns) => r matches Ok(v) && nodes_view(v@) == ns,
            Err(e) => r matches Err(x) && csv_error_view(x) == e,
        },
{
    let t = read_csv(raw);
    let headers = match &t.headers {
        Err(e) => return Err(CsvImportError::Csv(e.clone())),
        Ok(h) => h,
    };
    let ghost h = headers@.map_values(|s: String| s@);
    let ghost rows = t.rows@.map_values(|r: Result<Vec<String>, String>| row_view(r));
    let mut out: Vec<RawNode> = Vec::new();
    let mut i: usize = 0;
    assert(rows.take(0) =~= Seq::<Result<Seq<Seq<char>>, Seq<char>>>::empty());
    assert(nodes_view(out@) =~= Seq::<RawNodeView>::empty());
    while i < t.rows.len()
        invariant
            h == headers@.map_values(|s: String| s@),
            rows == t.rows@.map_values(|r: Result<Vec<String>, String>| row_view(r)),
            crate::csvtable::table_view(t) == csv_table(raw@),
            t.headers == Ok::<Vec<String>, String>(*headers),
            i <= t.rows@.len(),
            nodes_of_rows(h, rows.take(i as int), mapping.nodes) == Ok::<Seq<RawNodeView>, CsvImportErrorView>(nodes_view(out@)),
        decreases t.rows@.len() - i,
    {
        assert(rows.take(i + 1).drop_last() =~= rows.take(i as int));
        assert(rows.take(i + 1).last() == row_view(t.rows@[i as int]));
        match &t.rows[i] {
            Err(e) => {
                proof {
                    lemma_nodes_error_stays(h, rows, mapping.nodes, i + 1);
                }
                return Err(CsvImportError::Csv(e.clone()));
            },
            Ok(cells) => {
                let ghost cv = cells@.map_values(|s: String| s@);
                let p = csv_row_props(headers, cells);
                proof {
                    lemma_row_object_lookup(p, h, cv);
                    lemma_same_lookups_node(plain(p), row_props(h, cv), mapping.nodes);
                }
                match raw_node_from_properties(&p, mapping) {
                    Err(e) => {
                        proof {
                            lemma_nodes_error_stays(h, rows, mapping.nodes, i + 1);
                        }
                        return Err(CsvImportError::Mapping(e));
                    },
                    Ok(n) => {
                        let ghost before = out@;
                        out.push(n);
                        assert(nodes_view(out@) =~= nodes_view(before).push(raw_node_view(n)));
                    },
                }
            },
        }
        i = i + 1;
    }
    assert(rows.take(i as int) =~= rows);
    Ok(out)
}

fn parse_pipes_csv(raw: &str, mapping: &MappingConfig) -> (r: Result<Vec<RawPipe>, CsvImportError>)
    ensures
        match csv_pipes(csv_table(raw@), mapping.pipes) {
            Ok(ps) => r matches Ok(v) && pipes_view(v@) == ps,
            Err(e) => r matches Err(x) && csv_error_view(x) == e,
        },
{
    let t = read_csv(raw);
    let headers = match &t.headers {
        Err(e) => return Err(CsvImportError::Csv(e.clone())),
        Ok(h) => h,
    };
    let ghost h = headers@.map_values(|s: String| s@);
    let ghost rows = t.rows@.map_values(|r: Result<Vec<String>, String>| row_view(r));
    let mut out: Vec<RawPipe> = Vec::new();
    let mut i: usize = 0;
    assert(rows.take(0) =~= Seq::<Result<Seq<Seq<char>>, Seq<char>>>::empty());
    assert(pipes_view(out@) =~= Seq::<RawPipeView>::empty());
    while i < t.rows.len()
        invariant
            h == headers@.map_values(|s: String| s@),
            rows == t.rows@.map_values(|r: Result<Vec<String>, String>| row_view(r)),
            crate::csvtable::table_view(t) == csv_table(raw@),
            t.headers == Ok::<Vec<String>, String>(*headers),
            i <= t.rows@.len(),
            pipes_of_rows(h, rows.take(i as int), mapping.pipes) == Ok::<Seq<RawPipeView>, CsvImportErrorView>(pipes_view(out@)),
        decreases t.rows@.len() - i,
    {
        assert(rows.take(i + 1).drop_last() =~= rows.take(i as int));
        assert(rows.take(i + 1).last() == row_view(t.rows@[i as int]));
        match &t.rows[i] {
            Err(e) => {
                proof {
                    lemma_pipes_error_stays(h, rows, mapping.pipes, i + 1);
                }
                return Err(CsvImportError::Csv(e.clone()));
            },
            Ok(cells) => {
                let ghost cv = cells@.map_values(|s: String| s@);
                let p = csv_row_props(headers, cells);
                proof {
                    lemma_row_object_lookup(p, h, cv);
                    lemma_same_lookups_pipe(plain(p), row_props(h, cv), mapping.pipes);
                }
                match raw_pipe_from_properties(&p, mapping) {
                    Err(e) => {
                        proof {
                            lemma_pipes_error_stays(h, rows, mapping.pipes, i + 1);
                        }
                        return Err(CsvImportError::Mapping(e));
                    },
                    Ok(q) => {
                        let ghost before = out@;
                        out.push(q);
                        assert(pipes_view(out@) =~= pipes_view(before).push(raw_pipe_view(q)));
                    },
                }
            },
        }
        i = i + 1;
    }
    assert(rows.take(i as int) =~= rows);
    Ok(out)
}

/// The network of a node CSV text and a pipe CSV text read through `mapping` (see
/// `csv_import`): each row is the object of its cells by column (see `csv_row_props`).
pub fn import_csv_str(nodes_csv: &str, pipes_csv: &str, mapping: &MappingConfig) -> (r: Result<ImportedNetwork, CsvImportError>)
    ensures
        match csv_import(nodes_csv@, pipes_csv@, *mapping) {
            Ok((ns, ps)) => r matches Ok(net) && nodes_view(net.nodes@) == ns && pipes_view(net.pipes@) == ps,
            Err(e) => r matches Err(x) && csv_error_view(x) == e,
        },
{
    let nodes = match parse_nodes_csv(nodes_csv, mapping) {
        Err(e) => return Err(e),
        Ok(v) => v,
    };
    let pipes = match parse_pipes_csv(pipes_csv, mapping) {
        Err(e) => return Err(e),
        Ok(v) => v,
    };
    Ok(ImportedNetwork { nodes, pipes })
}

} // verus!
