//! What each network importer needs from an import request, and which importer a format
//! names. Reading the files is left to the caller, in the order the plan gives.

use vstd::prelude::*;

use crate::text::{ascii_lower, eq_lit, lower_chars_of, string_of_range};
use crate::topology::TopologyPipe;

verus! {

/// The files of an import; paths are kept as text.
#[derive(Debug, Clone)]
pub struct ImportRequest {
    pub mapping_path: String,
    pub nodes_path: Option<String>,
    pub pipes_path: Option<String>,
    pub geojson_paths: Vec<String>,
    pub nodes_shp_path: Option<String>,
    pub nodes_dbf_path: Option<String>,
    pub pipes_shp_path: Option<String>,
    pub pipes_dbf_path: Option<String>,
    pub gaslib_net_path: Option<String>,
}

impl ImportRequest {
    /// A request that names no file (an empty mapping path).
    pub fn empty() -> (r: Self)
        ensures
            r.mapping_path@.len() == 0,
            r.nodes_path is None,
            r.pipes_path is None,
            r.geojson_paths@.len() == 0,
            r.nodes_shp_path is None,
            r.nodes_dbf_path is None,
            r.pipes_shp_path is None,
            r.pipes_dbf_path is None,
            r.gaslib_net_path is None,
    {
        ImportRequest {
            mapping_path: String::new(),
            nodes_path: None,
            pipes_path: None,
            geojson_paths: Vec::new(),
            nodes_shp_path: None,
            nodes_dbf_path: None,
            pipes_shp_path: None,
            pipes_dbf_path: None,
            gaslib_net_path: None,
        }
    }
}

/// A field of the request that an importer found missing.
#[derive(Debug, Clone, Copy, PartialEq, Eq, Structural)]
pub enum RequestField {
    GeoJsonPaths,
    NodesPath,
    PipesPath,
    NodesShpPath,
    NodesDbfPath,
    PipesShpPath,
    PipesDbfPath,
    GasLibNetPath,
}

/// The four files of a shapefile pair.
#[derive(Debug, Clone)]
pub struct ShapefilePaths {
    pub nodes_shp: String,
    pub nodes_dbf: String,
    pub pipes_shp: String,
    pub pipes_dbf: String,
}

/// What to read, in order. For shapefiles the mapping is read first, and only then are the
/// four paths required (`files` holds the first one missing).
#[derive(Debug)]
pub enum ImportPlan {
    GeoJson { mapping: String, paths: Vec<String> },
    Csv { nodes: String, pipes: String, mapping: String },
    Shapefile { mapping: String, files: Result<ShapefilePaths, RequestField> },
    GasLib { net: String },
}

pub struct GeoJsonImporter;

pub struct CsvImporter;

pub struct ShapefileImporter;

pub struct GasLibImporter;

impl GeoJsonImporter {
    /// GeoJSON needs at least one file, then the mapping.
    pub fn plan(&self, request: &ImportRequest) -> (r: Result<ImportPlan, RequestField>)
        ensures
            request.geojson_paths@.len() == 0 ==> r == Err::<ImportPlan, RequestField>(RequestField::GeoJsonPaths),
            request.geojson_paths@.len() > 0 ==> (r matches Ok(ImportPlan::GeoJson { mapping, paths })
                && mapping@ == request.mapping_path@ && paths@.map_values(|p: String| p@) == request.geojson_paths@.map_values(|p: String| p@)),
    {
        if request.geojson_paths.len() == 0 {
            return Err(RequestField::GeoJsonPaths);
        }
        let paths = clone_paths(&request.geojson_paths);
        Ok(ImportPlan::GeoJson { mapping: request.mapping_path.clone(), paths })
    }
}

impl CsvImporter {
    /// CSV needs the nodes file, then the pipes file, then the mapping.
    pub fn plan(&self, request: &ImportRequest) -> (r: Result<ImportPlan, RequestField>)
        ensures
            request.nodes_path is None ==> r == Err::<ImportPlan, RequestField>(RequestField::NodesPath),
            request.nodes_path is Some && request.pipes_path is None ==> r == Err::<ImportPlan, RequestField>(RequestField::PipesPath),
            request.nodes_path is Some && request.pipes_path is Some ==> (r matches Ok(ImportPlan::Csv { nodes, pipes, mapping })
                && nodes@ == request.nodes_path->0@ && pipes@ == request.pipes_path->0@ && mapping@ == request.mapping_path@),
    {
        let nodes = match &request.nodes_path {
            Some(p) => p.clone(),
            None => return Err(RequestField::NodesPath),
        };
        let pipes = match &request.pipes_path {
            Some(p) => p.clone(),
            None => return Err(RequestField::PipesPath),
        };
        Ok(ImportPlan::Csv { nodes, pipes, mapping: request.mapping_path.clone() })
    }
}

impl ShapefileImporter {
    /// Shapefiles need the mapping, then the nodes `.shp` and `.dbf` and the pipes `.shp`
    /// and `.dbf`, in that order.
    pub fn plan(&self, request: &ImportRequest) -> (r: Result<ImportPlan, RequestField>)
        ensures
            r matches Ok(ImportPlan::Shapefile { mapping, files }) && mapping@ == request.mapping_path@ && match files {
                Ok(p) => request.nodes_shp_path is Some && request.nodes_dbf_path is Some && request.pipes_shp_path is Some
                    && request.pipes_dbf_path is Some && p.nodes_shp@ == request.nodes_shp_path->0@
                    && p.nodes_dbf@ == request.nodes_dbf_path->0@ && p.pipes_shp@ == request.pipes_shp_path->0@
                    && p.pipes_dbf@ == request.pipes_dbf_path->0@,
                Err(f) => f == (if request.nodes_shp_path is None {
                    RequestField::NodesShpPath
                } else if request.nodes_dbf_path is None {
                    RequestField::NodesDbfPath
                } else if request.pipes_shp_path is None {
                    RequestField::PipesShpPath
                } else {
                    RequestField::PipesDbfPath
                }) && (request.nodes_shp_path is None || request.nodes_dbf_path is None
                    || request.pipes_shp_path is None || request.pipes_dbf_path is None),
            },
    {
        let files = match (&request.nodes_shp_path, &request.nodes_dbf_path, &request.pipes_shp_path, &request.pipes_dbf_path) {
            (None, _, _, _) => Err(RequestField::NodesShpPath),
            (Some(_), None, _, _) => Err(RequestField::NodesDbfPath),
            (Some(_), Some(_), None, _) => Err(RequestField::PipesShpPath),
            (Some(_), Some(_), Some(_), None) => Err(RequestField::PipesDbfPath),
            (Some(a), Some(b), Some(c), Some(d)) => Ok(ShapefilePaths {
                nodes_shp: a.clone(),
                nodes_dbf: b.clone(),
                pipes_shp: c.clone(),
                pipes_dbf: d.clone(),
            }),
        };
        Ok(ImportPlan::Shapefile { mapping: request.mapping_path.clone(), files })
    }
}

impl GasLibImporter {
    /// GasLib needs the `.net` file (and no mapping).
    pub fn plan(&self, request: &ImportRequest) -> (r: Result<ImportPlan, RequestField>)
        ensures
            request.gaslib_net_path is None ==> r == Err::<ImportPlan, RequestField>(RequestField::GasLibNetPath),
            request.gaslib_net_path is Some ==> (r matches Ok(ImportPlan::GasLib { net }) && net@ == request.gaslib_net_path->0@),
    {
        match &request.gaslib_net_path {
            Some(p) => Ok(ImportPlan::GasLib { net: p.clone() }),
            None => Err(RequestField::GasLibNetPath),
        }
    }
}

fn clone_paths(v: &Vec<String>) -> (r: Vec<String>)
    ensures
        r@.map_values(|p: String| p@) == v@.map_values(|p: String| p@),
{
    let mut r: Vec<String> = Vec::new();
    let mut i: usize = 0;
    while i < v.len()
        invariant
            i <= v@.len(),
            r@.map_values(|p: String| p@) == v@.take(i as int).map_values(|p: String| p@),
        decreases v@.len() - i,
    {
        let ghost before = r@.map_values(|p: String| p@);
        let c = v[i].clone();
        r.push(c);
        assert(r@.map_values(|p: String| p@) =~= before.push(c@));
        assert(v@.take(i + 1) =~= v@.take(i as int).push(v@[i as int]));
        assert(r@.map_values(|p: String| p@) =~= v@.take(i + 1).map_values(|p: String| p@));
        i = i + 1;
    }
    assert(v@.take(v@.len() as int) =~= v@);
    r
}

/// The import formats, named case-insensitively.
#[derive(Debug, Clone, Copy, PartialEq, Eq, Structural)]
pub enum ImportFormat {
    GeoJson,
    Csv,
    Shapefile,
    GasLib,
}

pub open spec fn spec_import_format(format: Seq<char>) -> Result<ImportFormat, Seq<char>> {
    let l = ascii_lower(format);
    if l == "geojson"@ {
        Ok(ImportFormat::GeoJson)
    } else if l == "csv"@ {
        Ok(ImportFormat::Csv)
    } else if l == "shapefile"@ {
        Ok(ImportFormat::Shapefile)
    } else if l == "gaslib"@ {
        Ok(ImportFormat::GasLib)
    } else {
        Err(l)
    }
}

/// The format named by `format` (ASCII case ignored); an unknown name is refused, the
/// error holding it lower-cased.
pub fn parse_import_format(format: &str) -> (r: Result<ImportFormat, String>)
    ensures
        match r {
            Ok(f) => spec_import_format(format@) == Ok::<ImportFormat, Seq<char>>(f),
            Err(e) => spec_import_format(format@) == Err::<ImportFormat, Seq<char>>(e@),
        },
{
    let l = lower_chars_of(format);
    if eq_lit(&l, "geojson") {
        Ok(ImportFormat::GeoJson)
    } else if eq_lit(&l, "csv") {
        Ok(ImportFormat::Csv)
    } else if eq_lit(&l, "shapefile") {
        Ok(ImportFormat::Shapefile)
    } else if eq_lit(&l, "gaslib") {
        Ok(ImportFormat::GasLib)
    } else {
        let s = string_of_range(&l, 0, l.len());
        assert(l@.subrange(0, l@.len() as int) == l@);
        Err(s)
    }
}

/// Why an import request cannot be planned.
#[derive(Debug, Clone, PartialEq, Eq)]
pub enum PlanError {
    UnknownFormat(String),
    Missing(RequestField),
}

/// The field the importer of format `f` finds missing first, before reading anything.
pub open spec fn missing_field(f: ImportFormat, request: ImportRequest) -> Option<RequestField> {
    match f {
        ImportFormat::GeoJson => if request.geojson_paths@.len() == 0 { Some(RequestField::GeoJsonPaths) } else { None },
        ImportFormat::Csv => if request.nodes_path is None {
            Some(RequestField::NodesPath)
        } else if request.pipes_path is None {
            Some(RequestField::PipesPath)
        } else {
            None
        },
        ImportFormat::Shapefile => None,
        ImportFormat::GasLib => if request.gaslib_net_path is None { Some(RequestField::GasLibNetPath) } else { None },
    }
}

/// Whether the plan is one of the importer of format `f`.
pub open spec fn plan_of_format(f: ImportFormat, p: ImportPlan) -> bool {
    match f {
        ImportFormat::GeoJson => p is GeoJson,
        ImportFormat::Csv => p is Csv,
        ImportFormat::Shapefile => p is Shapefile,
        ImportFormat::GasLib => p is GasLib,
    }
}

/// The plan of the importer that `format` names (see `parse_import_format` and each
/// importer's `plan`).
pub fn plan_import(format: &str, request: &ImportRequest) -> (r: Result<ImportPlan, PlanError>)
    ensures
        match spec_import_format(format@) {
            Err(l) => r matches Err(PlanError::UnknownFormat(s)) && s@ == l,
            Ok(f) => match missing_field(f, *request) {
                Some(x) => r == Err::<ImportPlan, PlanError>(PlanError::Missing(x)),
                None => r matches Ok(p) && plan_of_format(f, p),
            },
        },
{
    match parse_import_format(format) {
        Err(l) => Err(PlanError::UnknownFormat(l)),
        Ok(f) => {
            let planned = match f {
                ImportFormat::GeoJson => GeoJsonImporter.plan(request),
                ImportFormat::Csv => CsvImporter.plan(request),
                ImportFormat::Shapefile => ShapefileImporter.plan(request),
                ImportFormat::GasLib => GasLibImporter.plan(request),
            };
            match planned {
                Ok(p) => Ok(p),
                Err(field) => Err(PlanError::Missing(field)),
            }
        },
    }
}

/// The preview of one pipe: its identifier and ends.
#[derive(Debug, Clone, PartialEq, Eq)]
pub struct ImportPreviewPipeDto {
    pub id: String,
    pub from: String,
    pub to: String,
}

/// The preview of the pipes, in order.
pub fn preview_pipes(pipes: &Vec<TopologyPipe>) -> (r: Vec<ImportPreviewPipeDto>)
    ensures
        r@.len() == pipes@.len(),
        forall|i: int| 0 <= i < r@.len() ==> #[trigger] r@[i].id@ == pipes@[i].id@ && r@[i].from@ == pipes@[i].from@
            && r@[i].to@ == pipes@[i].to@,
{
    let mut r: Vec<ImportPreviewPipeDto> = Vec::new();
    let mut i: usize = 0;
    while i < pipes.len()
        invariant
            i <= pipes@.len(),
            r@.len() == i,
            forall|j: int| 0 <= j < i ==> #[trigger] r@[j].id@ == pipes@[j].id@ && r@[j].from@ == pipes@[j].from@
                && r@[j].to@ == pipes@[j].to@,
        decreases pipes@.len() - i,
    {
        let p = &pipes[i];
        r.push(ImportPreviewPipeDto { id: p.id.clone(), from: p.from.clone(), to: p.to.clone() });
        i = i + 1;
    }
    r
}

} // verus!
