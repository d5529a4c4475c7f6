//! Verified core of the GazFlow gas network tools.

pub mod compressor;
pub mod connectivity;
pub mod csvtable;
pub mod decimal;
pub mod demand_profiles;
pub mod graph;
pub mod import_error;
pub mod labels;
pub mod mapping;
pub mod named;
pub mod text;
pub mod topology;
pub mod magnitude;
pub mod weather;
pub mod xml;
pub mod cdf;
pub mod catalog;
pub mod stages;
pub mod diff;
pub mod boundary;
pub mod importers;
pub mod solution;
pub mod routing;
pub mod datasets;
pub mod junctions;
pub mod anchors;
pub mod ranking;
pub mod editing;
pub mod flow_roles;
pub mod field_path;
pub mod settings;
pub mod equipment;
pub mod net_file;
pub mod properties;
pub mod geojson;
pub mod csv_import;
