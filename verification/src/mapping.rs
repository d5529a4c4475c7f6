//! Field mappings of imported features: which property holds what, and the nodes and
//! pipes read through them.

use vstd::prelude::*;

use crate::equipment::EquipmentSpec;
use crate::labels::{spec_connection_kind, spec_node_role, ConnectionKind, RawNodeRole};
use crate::net_file::{measure_view, text_view, Measure, MeasureView, Scale};
use crate::properties::{number_in, number_in_props, props_view, text_in, text_in_props, JsonValue, PropsRef, PropsView};
use crate::text::str_eq;

verus! {

/// Which attribute of an imported node holds what, and which label each node type stands for.
pub struct NodeMapping {
    pub id_field: Option<String>,
    pub type_field: Option<String>,
    /// Pairs (type as written in the source, label); each source type appears once.
    pub type_mapping: Vec<(String, String)>,
    pub pressure_fixed_field: Option<String>,
    pub lon_field: Option<String>,
    pub lat_field: Option<String>,
    pub elevation_field: Option<String>,
}

/// The label that the first pair with key `key` gives, if any.
pub open spec fn lookup(pairs: Seq<(String, String)>, key: Seq<char>) -> Option<Seq<char>> {
    if exists|i: int| 0 <= i < pairs.len() && pairs[i].0@ == key {
        let i = choose|i: int|
            0 <= i < pairs.len() && pairs[i].0@ == key && forall|j: int| 0 <= j < i ==> pairs[j].0@ != key;
        Some(pairs[i].1@)
    } else {
        None
    }
}

/// The mapped label of `key`.
pub fn lookup_label<'a>(pairs: &'a Vec<(String, String)>, key: &str) -> (r: Option<&'a String>)
    ensures
        match r {
            Some(v) => lookup(pairs@, key@) == Some(v@),
            None => lookup(pairs@, key@) is None,
        },
{
    let mut i: usize = 0;
    while i < pairs.len()
        invariant
            i <= pairs@.len(),
            forall|j: int| 0 <= j < i ==> pairs@[j].0@ != key@,
        decreases pairs@.len() - i,
    {
        if str_eq(pairs[i].0.as_str(), key) {
            proof {
                let k = choose|k: int|
                    0 <= k < pairs@.len() && pairs@[k].0@ == key@ && forall|j: int| 0 <= j < k ==> pairs@[j].0@ != key@;
                if k < i {
                } else if i < k {
                    assert(pairs@[i as int].0@ == key@);
                }
            }
            return Some(&pairs[i].1);
        }
        i = i + 1;
    }
    None
}

pub open spec fn spec_parse_role(type_value: Seq<char>, mapping: NodeMapping) -> RawNodeRole {
    match lookup(mapping.type_mapping@, type_value) {
        Some(label) => spec_node_role(label),
        None => spec_node_role(type_value),
    }
}

/// The role of a node of type `type_value`: through the mapping when it lists the
/// type, else read from the type itself.
pub fn parse_role(type_value: &str, mapping: &NodeMapping) -> (r: RawNodeRole)
    ensures
        r == spec_parse_role(type_value@, *mapping),
{
    match lookup_label(&mapping.type_mapping, type_value) {
        Some(label) => RawNodeRole::from_label(label.as_str()),
        None => RawNodeRole::from_label(type_value),
    }
}

/// Which property of an imported pipe holds what, in which unit, and which label each pipe type
/// stands for. Numbers are decimal literals.
pub struct PipeMapping {
    pub file: Option<String>,
    pub id_field: Option<String>,
    pub from_field: Option<String>,
    pub to_field: Option<String>,
    pub length_field: Option<String>,
    pub length_unit: Option<String>,
    pub diameter_field: Option<String>,
    pub diameter_unit: Option<String>,
    pub roughness_field: Option<String>,
    pub roughness_unit: Option<String>,
    pub roughness_default_mm: Option<String>,
    pub material_field: Option<String>,
    pub type_field: Option<String>,
    /// Pairs (type as written in the source, label).
    pub type_mapping: Vec<(String, String)>,
    pub regulator_setpoint_field: Option<String>,
    pub regulator_delta_p_min_field: Option<String>,
    pub control_valve_cv_field: Option<String>,
    pub control_valve_opening_field: Option<String>,
    pub delivery_min_pressure_field: Option<String>,
}

/// Defaults of an import; the demand is a decimal literal.
pub struct MappingDefaults {
    pub sink_demand_m3s: Option<String>,
}

/// A whole mapping: the source format, and the node and pipe mappings.
pub struct MappingConfig {
    pub format: String,
    pub nodes: NodeMapping,
    pub pipes: PipeMapping,
    pub defaults: MappingDefaults,
}

/// A node read from an imported feature; numbers are decimal literals.
pub struct RawNode {
    pub id: String,
    pub role: RawNodeRole,
    pub x: String,
    pub y: String,
    pub lon: Option<String>,
    pub lat: Option<String>,
    pub height_m: String,
    pub pressure_lower_bar: Option<String>,
    pub pressure_upper_bar: Option<String>,
    pub pressure_fixed_bar: Option<String>,
    pub flow_min_m3s: Option<String>,
    pub flow_max_m3s: Option<String>,
}

/// A pipe read from an imported feature; numbers are decimal literals.
pub struct RawPipe {
    pub id: String,
    pub from: String,
    pub to: String,
    pub kind: ConnectionKind,
    pub is_open: bool,
    pub length_km: Measure,
    pub diameter_mm: Measure,
    pub roughness_mm: Measure,
    pub compressor_ratio_max: Option<String>,
    pub flow_min_m3s: Option<String>,
    pub flow_max_m3s: Option<String>,
    pub equipment: EquipmentSpec<String>,
}

/// The mapping entry a feature lacks.
#[derive(Debug, Clone, Copy, PartialEq, Eq, Structural)]
pub enum MappedField {
    NodeId,
    PipeId,
    PipeFrom,
    PipeTo,
    PipeLength,
    PipeDiameter,
}

/// Why a feature could not be read: the mapping names no property for a required field,
/// or the feature has no usable value there.
#[derive(Debug, Clone, Copy, PartialEq, Eq, Structural)]
pub enum MappingError {
    Unmapped(MappedField),
    NoValue(MappedField),
}

/// The text of the property that the optional path names.
pub open spec fn text_at(props: PropsView, path: Option<String>) -> Option<Seq<char>> {
    match path {
        Some(f) => text_in(props, f@),
        None => None,
    }
}

/// The number literal of the property that the optional path names.
pub open spec fn number_at(props: PropsView, path: Option<String>) -> Option<Seq<char>> {
    match path {
        Some(f) => number_in(props, f@),
        None => None,
    }
}

/// A feature's own properties, without a geometry set in them.
pub open spec fn plain(props: JsonValue) -> PropsView {
    PropsView { props: Some(props), geometry: None, row: None }
}

pub struct RawNodeView {
    pub id: Seq<char>,
    pub role: RawNodeRole,
    pub x: Seq<char>,
    pub y: Seq<char>,
    pub lon: Option<Seq<char>>,
    pub lat: Option<Seq<char>>,
    pub height_m: Seq<char>,
    pub pressure_fixed_bar: Option<Seq<char>>,
}

/// What a node read through `m` holds; its bounds and flows are not read.
pub open spec fn raw_node_view(n: RawNode) -> RawNodeView {
    RawNodeView {
        id: n.id@,
        role: n.role,
        x: n.x@,
        y: n.y@,
        lon: text_view(n.lon),
        lat: text_view(n.lat),
        height_m: n.height_m@,
        pressure_fixed_bar: text_view(n.pressure_fixed_bar),
    }
}

/// The node a feature describes: its identifier (required); its role from the type
/// property (through the mapping), an inner node without one; its position from the
/// longitude and latitude (zero where absent); its height (zero where absent); its imposed
/// pressure.
pub open spec fn spec_raw_node(props: PropsView, m: NodeMapping) -> Result<RawNodeView, MappingError> {
    match m.id_field {
        None => Err(MappingError::Unmapped(MappedField::NodeId)),
        Some(f) => match text_in(props, f@) {
            None => Err(MappingError::NoValue(MappedField::NodeId)),
            Some(id) => {
                let lon = number_at(props, m.lon_field);
                let lat = number_at(props, m.lat_field);
                Ok(RawNodeView {
                    id,
                    role: match text_at(props, m.type_field) {
                        Some(t) => spec_parse_role(t, m),
                        None => RawNodeRole::Innode,
                    },
                    x: match lon {
                        Some(v) => v,
                        None => "0.0"@,
                    },
                    y: match lat {
                        Some(v) => v,
                        None => "0.0"@,
                    },
                    lon,
                    lat,
                    height_m: match number_at(props, m.elevation_field) {
                        Some(v) => v,
                        None => "0.0"@,
                    },
                    pressure_fixed_bar: number_at(props, m.pressure_fixed_field),
                })
            },
        },
    }
}

fn text_at_exec(props: &PropsRef, path: &Option<String>) -> (r: Option<String>)
    ensures
        text_view(r) == text_at(props_view(*props), *path),
{
    match path {
        Some(f) => text_in_props(props, f.as_str()),
        None => None,
    }
}

fn number_at_exec(props: &PropsRef, path: &Option<String>) -> (r: Option<String>)
    ensures
        text_view(r) == number_at(props_view(*props), *path),
{
    match path {
        Some(f) => number_in_props(props, f.as_str()),
        None => None,
    }
}

/// The node that the feature `props` describes through `mapping` (see `spec_raw_node`).
pub fn raw_node_from_properties(props: &JsonValue, mapping: &MappingConfig) -> (r: Result<RawNode, MappingError>)
    ensures
        match r {
            Ok(n) => spec_raw_node(plain(*props), mapping.nodes) == Ok::<RawNodeView, MappingError>(raw_node_view(n))
                && n.pressure_lower_bar is None && n.pressure_upper_bar is None && n.flow_min_m3s is None
                && n.flow_max_m3s is None,
            Err(e) => spec_raw_node(plain(*props), mapping.nodes) == Err::<RawNodeView, MappingError>(e),
        },
{
    let src = PropsRef { props: Some(props), geometry: None };
    read_raw_node(&src, mapping)
}

/// The node that the properties `props` describe through `mapping` (see `spec_raw_node`).
pub fn read_raw_node(props: &PropsRef, mapping: &MappingConfig) -> (r: Result<RawNode, MappingError>)
    ensures
        match r {
            Ok(n) => spec_raw_node(props_view(*props), mapping.nodes) == Ok::<RawNodeView, MappingError>(raw_node_view(n))
                && n.pressure_lower_bar is None && n.pressure_upper_bar is None && n.flow_min_m3s is None
                && n.flow_max_m3s is None,
            Err(e) => spec_raw_node(props_view(*props), mapping.nodes) == Err::<RawNodeView, MappingError>(e),
        },
{
    let nm = &mapping.nodes;
    let id = match &nm.id_field {
        None => return Err(MappingError::Unmapped(MappedField::NodeId)),
        Some(f) => match text_in_props(props, f.as_str()) {
            None => return Err(MappingError::NoValue(MappedField::NodeId)),
            Some(v) => v,
        },
    };
    let role = match text_at_exec(props, &nm.type_field) {
        Some(t) => parse_role(t.as_str(), nm),
        None => RawNodeRole::Innode,
    };
    let lon = number_at_exec(props, &nm.lon_field);
    let lat = number_at_exec(props, &nm.lat_field);
    let x = match &lon {
        Some(v) => v.clone(),
        None => "0.0".to_string(),
    };
    let y = match &lat {
        Some(v) => v.clone(),
        None => "0.0".to_string(),
    };
    let height_m = match number_at_exec(props, &nm.elevation_field) {
        Some(v) => v,
        None => "0.0".to_string(),
    };
    let pressure_fixed_bar = number_at_exec(props, &nm.pressure_fixed_field);
    Ok(RawNode {
        id,
        role,
        x,
        y,
        lon,
        lat,
        height_m,
        pressure_lower_bar: None,
        pressure_upper_bar: None,
        pressure_fixed_bar,
        flow_min_m3s: None,
        flow_max_m3s: None,
    })
}

/// The kind a pipe type names: through the mapping when it lists the type, else read from
/// the type itself.
pub open spec fn spec_parse_pipe_kind(type_value: Seq<char>, m: PipeMapping) -> ConnectionKind {
    match lookup(m.type_mapping@, type_value) {
        Some(label) => spec_connection_kind(label),
        None => spec_connection_kind(type_value),
    }
}

fn parse_pipe_kind(type_value: &str, mapping: &PipeMapping) -> (r: ConnectionKind)
    ensures
        r == spec_parse_pipe_kind(type_value@, *mapping),
{
    match lookup_label(&mapping.type_mapping, type_value) {
        Some(label) => ConnectionKind::from_label(label.as_str()),
        None => ConnectionKind::from_label(type_value),
    }
}

pub open spec fn unit_is(unit: Option<String>, u: Seq<char>) -> bool {
    match unit {
        Some(s) => s@ == u,
        None => false,
    }
}

/// A length in kilometres: a value in `m`, `meter` or `meters` is divided by a thousand.
pub open spec fn length_measure(v: Seq<char>, unit: Option<String>) -> MeasureView {
    if unit_is(unit, "m"@) || unit_is(unit, "meter"@) || unit_is(unit, "meters"@) {
        (v, Scale::Thousandth)
    } else {
        (v, Scale::AsWritten)
    }
}

/// A diameter or roughness in millimetres: a value in `m` is multiplied by a thousand.
pub open spec fn mm_measure(v: Seq<char>, unit: Option<String>) -> MeasureView {
    if unit_is(unit, "m"@) {
        (v, Scale::Thousandfold)
    } else {
        (v, Scale::AsWritten)
    }
}

pub open spec fn equipment_view(e: EquipmentSpec<String>) -> EquipmentSpec<Seq<char>> {
    EquipmentSpec {
        regulator_setpoint_bar: text_view(e.regulator_setpoint_bar),
        regulator_delta_p_min_bar: text_view(e.regulator_delta_p_min_bar),
        control_valve_cv: text_view(e.control_valve_cv),
        control_valve_opening_pct: text_view(e.control_valve_opening_pct),
        delivery_min_pressure_bar: text_view(e.delivery_min_pressure_bar),
        compressor_nominal_ratio: text_view(e.compressor_nominal_ratio),
        compressor_pressure_cap_ratio: text_view(e.compressor_pressure_cap_ratio),
        compressor_pressure_out_max_bar: text_view(e.compressor_pressure_out_max_bar),
        internal_bypass_required: e.internal_bypass_required,
    }
}

/// The equipment settings a feature gives through the pipe mapping: regulator set point
/// and margin, control valve Cv and opening, delivery minimum pressure.
pub open spec fn spec_equipment(props: PropsView, pm: PipeMapping) -> EquipmentSpec<Seq<char>> {
    EquipmentSpec {
        regulator_setpoint_bar: number_at(props, pm.regulator_setpoint_field),
        regulator_delta_p_min_bar: number_at(props, pm.regulator_delta_p_min_field),
        control_valve_cv: number_at(props, pm.control_valve_cv_field),
        control_valve_opening_pct: number_at(props, pm.control_valve_opening_field),
        delivery_min_pressure_bar: number_at(props, pm.delivery_min_pressure_field),
        compressor_nominal_ratio: None,
        compressor_pressure_cap_ratio: None,
        compressor_pressure_out_max_bar: None,
        internal_bypass_required: None,
    }
}

/// A delivery station with a set point and a contractual minimum but no margin gets a
/// margin of 0.3 bar.
pub open spec fn completed_equipment(kind: ConnectionKind, e: EquipmentSpec<Seq<char>>) -> EquipmentSpec<Seq<char>> {
    if kind == ConnectionKind::DeliveryStation && e.regulator_setpoint_bar is Some && e.delivery_min_pressure_bar is Some
        && e.regulator_delta_p_min_bar is None {
        EquipmentSpec { regulator_delta_p_min_bar: Some("0.3"@), ..e }
    } else {
        e
    }
}

fn equipment_from_properties(props: &PropsRef, pm: &PipeMapping) -> (r: EquipmentSpec<String>)
    ensures
        equipment_view(r) == spec_equipment(props_view(*props), *pm),
{
    EquipmentSpec {
        regulator_setpoint_bar: number_at_exec(props, &pm.regulator_setpoint_field),
        regulator_delta_p_min_bar: number_at_exec(props, &pm.regulator_delta_p_min_field),
        control_valve_cv: number_at_exec(props, &pm.control_valve_cv_field),
        control_valve_opening_pct: number_at_exec(props, &pm.control_valve_opening_field),
        delivery_min_pressure_bar: number_at_exec(props, &pm.delivery_min_pressure_field),
        compressor_nominal_ratio: None,
        compressor_pressure_cap_ratio: None,
        compressor_pressure_out_max_bar: None,
        internal_bypass_required: None,
    }
}

pub struct RawPipeView {
    pub id: Seq<char>,
    pub from: Seq<char>,
    pub to: Seq<char>,
    pub kind: ConnectionKind,
    pub is_open: bool,
    pub length_km: MeasureView,
    pub diameter_mm: MeasureView,
    pub roughness_mm: MeasureView,
    pub compressor_ratio_max: Option<Seq<char>>,
    pub flow_min_m3s: Option<Seq<char>>,
    pub flow_max_m3s: Option<Seq<char>>,
    pub equipment: EquipmentSpec<Seq<char>>,
}

pub open spec fn raw_pipe_view(p: RawPipe) -> RawPipeView {
    RawPipeView {
        id: p.id@,
        from: p.from@,
        to: p.to@,
        kind: p.kind,
        is_open: p.is_open,
        length_km: measure_view(p.length_km),
        diameter_mm: measure_view(p.diameter_mm),
        roughness_mm: measure_view(p.roughness_mm),
        compressor_ratio_max: text_view(p.compressor_ratio_max),
        flow_min_m3s: text_view(p.flow_min_m3s),
        flow_max_m3s: text_view(p.flow_max_m3s),
        equipment: equipment_view(p.equipment),
    }
}

/// The pipe a feature describes. The mapping must name the identifier, end, length and
/// diameter properties, checked in that order, and the feature must give them, read in
/// the same order (length and diameter as numbers). The roughness is the roughness
/// property (in its unit), else the mapping's default, else 0.05 mm; the kind comes from
/// the type property (a plain pipe without one); the pipe is open.
pub open spec fn spec_raw_pipe(props: PropsView, pm: PipeMapping) -> Result<RawPipeView, MappingError> {
    if pm.id_field is None {
        Err(MappingError::Unmapped(MappedField::PipeId))
    } else if pm.from_field is None {
        Err(MappingError::Unmapped(MappedField::PipeFrom))
    } else if pm.to_field is None {
        Err(MappingError::Unmapped(MappedField::PipeTo))
    } else if pm.length_field is None {
        Err(MappingError::Unmapped(MappedField::PipeLength))
    } else if pm.diameter_field is None {
        Err(MappingError::Unmapped(MappedField::PipeDiameter))
    } else if text_at(props, pm.id_field) is None {
        Err(MappingError::NoValue(MappedField::PipeId))
    } else if text_at(props, pm.from_field) is None {
        Err(MappingError::NoValue(MappedField::PipeFrom))
    } else if text_at(props, pm.to_field) is None {
        Err(MappingError::NoValue(MappedField::PipeTo))
    } else if number_at(props, pm.length_field) is None {
        Err(MappingError::NoValue(MappedField::PipeLength))
    } else if number_at(props, pm.diameter_field) is None {
        Err(MappingError::NoValue(MappedField::PipeDiameter))
    } else {
        let kind = match text_at(props, pm.type_field) {
            Some(t) => spec_parse_pipe_kind(t, pm),
            None => ConnectionKind::Pipe,
        };
        Ok(RawPipeView {
            id: text_at(props, pm.id_field).unwrap(),
            from: text_at(props, pm.from_field).unwrap(),
            to: text_at(props, pm.to_field).unwrap(),
            kind,
            is_open: true,
            length_km: length_measure(number_at(props, pm.length_field).unwrap(), pm.length_unit),
            diameter_mm: mm_measure(number_at(props, pm.diameter_field).unwrap(), pm.diameter_unit),
            roughness_mm: match number_at(props, pm.roughness_field) {
                Some(v) => mm_measure(v, pm.roughness_unit),
                None => match pm.roughness_default_mm {
                    Some(d) => (d@, Scale::AsWritten),
                    None => ("0.05"@, Scale::AsWritten),
                },
            },
            compressor_ratio_max: None,
            flow_min_m3s: None,
            flow_max_m3s: None,
            equipment: completed_equipment(kind, spec_equipment(props, pm)),
        })
    }
}

fn unit_is_exec(unit: &Option<String>, u: &str) -> (r: bool)
    ensures
        r == unit_is(*unit, u@),
{
    match unit {
        Some(s) => str_eq(s.as_str(), u),
        None => false,
    }
}

/// The pipe that the feature `props` describes through `mapping` (see `spec_raw_pipe`).
pub fn raw_pipe_from_properties(props: &JsonValue, mapping: &MappingConfig) -> (r: Result<RawPipe, MappingError>)
    ensures
        match r {
            Ok(p) => spec_raw_pipe(plain(*props), mapping.pipes) == Ok::<RawPipeView, MappingError>(raw_pipe_view(p)),
            Err(e) => spec_raw_pipe(plain(*props), mapping.pipes) == Err::<RawPipeView, MappingError>(e),
        },
{
    let src = PropsRef { props: Some(props), geometry: None };
    read_raw_pipe(&src, mapping)
}

/// The pipe that the properties `props` describe through `mapping` (see `spec_raw_pipe`).
pub fn read_raw_pipe(props: &PropsRef, mapping: &MappingConfig) -> (r: Result<RawPipe, MappingError>)
    ensures
        match r {
            Ok(p) => spec_raw_pipe(props_view(*props), mapping.pipes) == Ok::<RawPipeView, MappingError>(raw_pipe_view(p)),
            Err(e) => spec_raw_pipe(props_view(*props), mapping.pipes) == Err::<RawPipeView, MappingError>(e),
        },
{
    let pm = &mapping.pipes;
    if pm.id_field.is_none() {
        return Err(MappingError::Unmapped(MappedField::PipeId));
    }
    if pm.from_field.is_none() {
        return Err(MappingError::Unmapped(MappedField::PipeFrom));
    }
    if pm.to_field.is_none() {
        return Err(MappingError::Unmapped(MappedField::PipeTo));
    }
    if pm.length_field.is_none() {
        return Err(MappingError::Unmapped(MappedField::PipeLength));
    }
    if pm.diameter_field.is_none() {
        return Err(MappingError::Unmapped(MappedField::PipeDiameter));
    }
    let id = match text_at_exec(props, &pm.id_field) {
        None => return Err(MappingError::NoValue(MappedField::PipeId)),
        Some(v) => v,
    };
    let from = match text_at_exec(props, &pm.from_field) {
        None => return Err(MappingError::NoValue(MappedField::PipeFrom)),
        Some(v) => v,
    };
    let to = match text_at_exec(props, &pm.to_field) {
        None => return Err(MappingError::NoValue(MappedField::PipeTo)),
        Some(v) => v,
    };
    let length_raw = match number_at_exec(props, &pm.length_field) {
        None => return Err(MappingError::NoValue(MappedField::PipeLength)),
        Some(v) => v,
    };
    let diameter_raw = match number_at_exec(props, &pm.diameter_field) {
        None => return Err(MappingError::NoValue(MappedField::PipeDiameter)),
        Some(v) => v,
    };
    let in_metres = unit_is_exec(&pm.length_unit, "m") || unit_is_exec(&pm.length_unit, "meter")
        || unit_is_exec(&pm.length_unit, "meters");
    let length_km = Measure { literal: length_raw, scale: if in_metres { Scale::Thousandth } else { Scale::AsWritten } };
    let diameter_mm = Measure {
        literal: diameter_raw,
        scale: if unit_is_exec(&pm.diameter_unit, "m") { Scale::Thousandfold } else { Scale::AsWritten },
    };
    let roughness_mm = match number_at_exec(props, &pm.roughness_field) {
        Some(v) => Measure {
            literal: v,
            scale: if unit_is_exec(&pm.roughness_unit, "m") { Scale::Thousandfold } else { Scale::AsWritten },
        },
        None => match &pm.roughness_default_mm {
            Some(d) => Measure { literal: d.clone(), scale: Scale::AsWritten },
            None => Measure { literal: "0.05".to_string(), scale: Scale::AsWritten },
        },
    };
    let kind = match text_at_exec(props, &pm.type_field) {
        Some(t) => parse_pipe_kind(t.as_str(), pm),
        None => ConnectionKind::Pipe,
    };
    let mut equipment = equipment_from_properties(props, pm);
    let delivery = match kind {
        ConnectionKind::DeliveryStation => true,
        _ => false,
    };
    if delivery && equipment.regulator_setpoint_bar.is_some() && equipment.delivery_min_pressure_bar.is_some()
        && equipment.regulator_delta_p_min_bar.is_none() {
        equipment.regulator_delta_p_min_bar = Some("0.3".to_string());
    }
    Ok(RawPipe {
        id,
        from,
        to,
        kind,
        is_open: true,
        length_km,
        diameter_mm,
        roughness_mm,
        compressor_ratio_max: None,
        flow_min_m3s: None,
        flow_max_m3s: None,
        equipment,
    })
}

/// Two property views looked up alike give the same node.
pub proof fn lemma_same_lookups_node(v1: PropsView, v2: PropsView, m: NodeMapping)
    requires
        forall|path: Seq<char>| #[trigger] text_in(v1, path) == text_in(v2, path),
        forall|path: Seq<char>| #[trigger] number_in(v1, path) == number_in(v2, path),
    ensures
        spec_raw_node(v1, m) == spec_raw_node(v2, m),
{
    if let Some(f) = m.id_field {
        assert(text_in(v1, f@) == text_in(v2, f@));
    }
    assert(text_at(v1, m.type_field) == text_at(v2, m.type_field)) by {
        if let Some(f) = m.type_field {
            assert(text_in(v1, f@) == text_in(v2, f@));
        }
    }
    assert(number_at(v1, m.lon_field) == number_at(v2, m.lon_field)) by {
        if let Some(f) = m.lon_field {
            assert(number_in(v1, f@) == number_in(v2, f@));
        }
    }
    assert(number_at(v1, m.lat_field) == number_at(v2, m.lat_field)) by {
        if let Some(f) = m.lat_field {
            assert(number_in(v1, f@) == number_in(v2, f@));
        }
    }
    assert(number_at(v1, m.elevation_field) == number_at(v2, m.elevation_field)) by {
        if let Some(f) = m.elevation_field {
            assert(number_in(v1, f@) == number_in(v2, f@));
        }
    }
    assert(number_at(v1, m.pressure_fixed_field) == number_at(v2, m.pressure_fixed_field)) by {
        if let Some(f) = m.pressure_fixed_field {
            assert(number_in(v1, f@) == number_in(v2, f@));
        }
    }
}

proof fn lemma_same_text_at(v1: PropsView, v2: PropsView, path: Option<String>)
    requires
        forall|p: Seq<char>| #[trigger] text_in(v1, p) == text_in(v2, p),
    ensures
        text_at(v1, path) == text_at(v2, path),
{
    if let Some(f) = path {
        assert(text_in(v1, f@) == text_in(v2, f@));
    }
}

proof fn lemma_same_number_at(v1: PropsView, v2: PropsView, path: Option<String>)
    requires
        forall|p: Seq<char>| #[trigger] number_in(v1, p) == number_in(v2, p),
    ensures
        number_at(v1, path) == number_at(v2, path),
{
    if let Some(f) = path {
        assert(number_in(v1, f@) == number_in(v2, f@));
    }
}

/// Two property views looked up alike give the same pipe.
pub proof fn lemma_same_lookups_pipe(v1: PropsView, v2: PropsView, pm: PipeMapping)
    requires
        forall|path: Seq<char>| #[trigger] text_in(v1, path) == text_in(v2, path),
        forall|path: Seq<char>| #[trigger] number_in(v1, path) == number_in(v2, path),
    ensures
        spec_raw_pipe(v1, pm) == spec_raw_pipe(v2, pm),
{
    lemma_same_text_at(v1, v2, pm.id_field);
    lemma_same_text_at(v1, v2, pm.from_field);
    lemma_same_text_at(v1, v2, pm.to_field);
    lemma_same_text_at(v1, v2, pm.type_field);
    lemma_same_number_at(v1, v2, pm.length_field);
    lemma_same_number_at(v1, v2, pm.diameter_field);
    lemma_same_number_at(v1, v2, pm.roughness_field);
    lemma_same_number_at(v1, v2, pm.regulator_setpoint_field);
    lemma_same_number_at(v1, v2, pm.regulator_delta_p_min_field);
    lemma_same_number_at(v1, v2, pm.control_valve_cv_field);
    lemma_same_number_at(v1, v2, pm.control_valve_opening_field);
    lemma_same_number_at(v1, v2, pm.delivery_min_pressure_field);
    assert(spec_equipment(v1, pm) == spec_equipment(v2, pm));
}

} // verus!
