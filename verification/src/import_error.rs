//! Errors of the CSV importers.

use vstd::prelude::*;

use crate::text::{append, append_u8, decimal_text};

verus! {

/// A column (or field) that an importer looks for.
#[derive(Debug, Clone, Copy, PartialEq, Eq, Structural)]
pub enum Column {
    NodeId,
    Category,
    Q0,
    Alpha,
    Threshold,
    MaxHeating,
    Hour,
    TExt,
}

/// Why a CSV import failed; `S` is the text type (`String`, or its view in contracts).
#[derive(Debug, PartialEq, Eq)]
pub enum ImportError<S> {
    /// The CSV reader failed on the header row or on a data row.
    Csv { message: S },
    /// No header matches the aliases of the column.
    MissingColumn { column: Column },
    /// The field is missing or blank in a row.
    MissingField { column: Column },
    /// The field is not a number of the expected kind.
    InvalidNumber { column: Column, text: S },
    /// A node appears in two rows.
    DuplicateNodeId { node_id: S },
    /// The category is none of the known ones.
    UnknownCategory { category: S },
    /// The hour is above 23.
    InvalidHour { hour: u8 },
    /// The hour appears in two rows.
    DuplicateHour { hour: u8 },
    /// The temperature is infinite or not a number.
    NonFiniteTemperature { hour: u8 },
    /// The file has no data row.
    NoRows,
}

pub open spec fn error_view(e: ImportError<String>) -> ImportError<Seq<char>> {
    match e {
        ImportError::Csv { message } => ImportError::Csv { message: message@ },
        ImportError::MissingColumn { column } => ImportError::MissingColumn { column },
        ImportError::MissingField { column } => ImportError::MissingField { column },
        ImportError::InvalidNumber { column, text } => ImportError::InvalidNumber { column, text: text@ },
        ImportError::DuplicateNodeId { node_id } => ImportError::DuplicateNodeId { node_id: node_id@ },
        ImportError::UnknownCategory { category } => ImportError::UnknownCategory { category: category@ },
        ImportError::InvalidHour { hour } => ImportError::InvalidHour { hour },
        ImportError::DuplicateHour { hour } => ImportError::DuplicateHour { hour },
        ImportError::NonFiniteTemperature { hour } => ImportError::NonFiniteTemperature { hour },
        ImportError::NoRows => ImportError::NoRows,
    }
}

/// The header aliases of each column, compared after trimming and ASCII lower-casing.
pub open spec fn spec_aliases(c: Column) -> Seq<Seq<char>> {
    match c {
        Column::NodeId => seq!["node_id"@, "node"@, "id"@],
        Column::Category => seq!["category"@, "categorie"@, "type"@],
        Column::Q0 => seq!["q0_m3h"@, "q0"@, "base_m3h"@],
        Column::Alpha => seq!["alpha_m3h_per_c"@, "alpha"@, "gradient"@],
        Column::Threshold => seq!["t_threshold_c"@, "t_seuil"@, "threshold_c"@],
        Column::MaxHeating => seq!["max_heating_m3h"@, "q_chauff_max"@],
        Column::Hour => seq!["hour"@, "heure"@, "h"@],
        Column::TExt => seq!["t_ext_c"@, "temperature"@, "t_ext"@, "t"@],
    }
}

/// The header aliases of `c`.
pub fn aliases(c: Column) -> (v: Vec<&'static str>)
    ensures
        v@.map_values(|s: &str| s@) == spec_aliases(c),
{
    let v = match c {
        Column::NodeId => vec!["node_id", "node", "id"],
        Column::Category => vec!["category", "categorie", "type"],
        Column::Q0 => vec!["q0_m3h", "q0", "base_m3h"],
        Column::Alpha => vec!["alpha_m3h_per_c", "alpha", "gradient"],
        Column::Threshold => vec!["t_threshold_c", "t_seuil", "threshold_c"],
        Column::MaxHeating => vec!["max_heating_m3h", "q_chauff_max"],
        Column::Hour => vec!["hour", "heure", "h"],
        Column::TExt => vec!["t_ext_c", "temperature", "t_ext", "t"],
    };
    assert(v@.map_values(|s: &str| s@) =~= spec_aliases(c));
    v
}

/// The name of a column in messages.
pub open spec fn column_name(c: Column) -> Seq<char> {
    match c {
        Column::NodeId => "node_id"@,
        Column::Category => "category"@,
        Column::Q0 => "q0_m3h"@,
        Column::Alpha => "alpha"@,
        Column::Threshold => "t_threshold_c"@,
        Column::MaxHeating => "max_heating_m3h"@,
        Column::Hour => "hour"@,
        Column::TExt => "t_ext_c"@,
    }
}

pub fn column_label(c: Column) -> (r: &'static str)
    ensures
        r@ == column_name(c),
{
    match c {
        Column::NodeId => "node_id",
        Column::Category => "category",
        Column::Q0 => "q0_m3h",
        Column::Alpha => "alpha",
        Column::Threshold => "t_threshold_c",
        Column::MaxHeating => "max_heating_m3h",
        Column::Hour => "hour",
        Column::TExt => "t_ext_c",
    }
}

/// The texts of `v` separated by `, `.
pub open spec fn joined(v: Seq<Seq<char>>) -> Seq<char>
    decreases v.len(),
{
    if v.len() == 0 {
        Seq::empty()
    } else if v.len() == 1 {
        v[0]
    } else {
        joined(v.drop_last()) + ", "@ + v.last()
    }
}

/// The message of an error.
pub open spec fn error_message(e: ImportError<Seq<char>>) -> Seq<char> {
    match e {
        ImportError::Csv { message } => message,
        ImportError::MissingColumn { column } => "missing CSV column (expected one of: "@ + joined(spec_aliases(column)) + ")"@,
        ImportError::MissingField { column } => "missing field "@ + column_name(column),
        ImportError::InvalidNumber { column, .. } => column_name(column),
        ImportError::DuplicateNodeId { node_id } => "duplicate node_id in demand profiles: "@ + node_id,
        ImportError::UnknownCategory { category } => "unknown demand profile category: "@ + category,
        ImportError::InvalidHour { hour } => "invalid hour "@ + decimal_text(hour as nat) + " (expected 0-23)"@,
        ImportError::DuplicateHour { hour } => "duplicate hour "@ + decimal_text(hour as nat) + " in weather csv"@,
        ImportError::NonFiniteTemperature { hour } => "non-finite t_ext_c at hour "@ + decimal_text(hour as nat),
        ImportError::NoRows => "weather csv must contain at least one row"@,
    }
}

impl ImportError<String> {
    /// The message of the error (see `error_message`).
    pub fn message(&self) -> (m: String)
        ensures
            m@ == error_message(error_view(*self)),
    {
        let mut m = String::new();
        match self {
            ImportError::Csv { message } => append(&mut m, message.as_str()),
            ImportError::MissingColumn { column } => {
                append(&mut m, "missing CSV column (expected one of: ");
                let al = aliases(*column);
                let ghost sv = al@.map_values(|s: &str| s@);
                let ghost pre = m@;
                let mut i: usize = 0;
                while i < al.len()
                    invariant
                        sv == al@.map_values(|s: &str| s@),
                        i <= al@.len(),
                        m@ == pre + joined(sv.take(i as int)),
                    decreases al@.len() - i,
                {
                    let ghost before = m@;
                    if i > 0 {
                        append(&mut m, ", ");
                    }
                    append(&mut m, al[i]);
                    proof {
                        let t = sv.take(i + 1);
                        assert(t.drop_last() =~= sv.take(i as int));
                        assert(t.last() == al@[i as int]@);
                        if i == 0 {
                            assert(sv.take(0) =~= Seq::<Seq<char>>::empty());
                            assert(joined(t) == t[0]);
                        }
                        assert(m@ =~= pre + joined(t));
                    }
                    i = i + 1;
                }
                assert(sv.take(al@.len() as int) =~= sv);
                append(&mut m, ")");
            },
            ImportError::MissingField { column } => {
                append(&mut m, "missing field ");
                append(&mut m, column_label(*column));
            },
            ImportError::InvalidNumber { column, .. } => append(&mut m, column_label(*column)),
            ImportError::DuplicateNodeId { node_id } => {
                append(&mut m, "duplicate node_id in demand profiles: ");
                append(&mut m, node_id.as_str());
            },
            ImportError::UnknownCategory { category } => {
                append(&mut m, "unknown demand profile category: ");
                append(&mut m, category.as_str());
            },
            ImportError::InvalidHour { hour } => {
                append(&mut m, "invalid hour ");
                append_u8(&mut m, *hour);
                append(&mut m, " (expected 0-23)");
            },
            ImportError::DuplicateHour { hour } => {
                append(&mut m, "duplicate hour ");
                append_u8(&mut m, *hour);
                append(&mut m, " in weather csv");
            },
            ImportError::NonFiniteTemperature { hour } => {
                append(&mut m, "non-finite t_ext_c at hour ");
                append_u8(&mut m, *hour);
            },
            ImportError::NoRows => append(&mut m, "weather csv must contain at least one row"),
        }
        m
    }
}

} // verus!
