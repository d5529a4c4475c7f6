//! Classification of free-text labels found in imported network files.

use vstd::prelude::*;

use crate::text::{ascii_lower, chars_of, eq_lit, lower_chars_of, lower_vec, trim, trim_bounds, trim_end, trim_start};

verus! {

/// Role of a node in an imported network.
#[derive(Debug, Clone, Copy, PartialEq, Eq, Structural)]
pub enum RawNodeRole {
    Source,
    Sink,
    Innode,
}

/// Kind of a network arc.
#[derive(Debug, Clone, Copy, PartialEq, Eq, Structural)]
pub enum ConnectionKind {
    Pipe,
    Valve,
    ShortPipe,
    Resistor,
    CompressorStation,
    /// Downstream pressure regulator.
    PressureRegulator,
    /// Control valve with a variable Cv opening.
    ControlValve,
    /// Delivery station (regulator with a contractual minimum pressure).
    DeliveryStation,
}

pub open spec fn spec_node_role(label: Seq<char>) -> RawNodeRole {
    let l = ascii_lower(label);
    if l == "source"@ || l == "alim"@ || l == "entry"@ || l == "production"@ || l == "poste"@
        || l == "poste_alim"@ {
        RawNodeRole::Source
    } else if l == "sink"@ || l == "livr"@ || l == "exit"@ || l == "consumer"@ || l == "demand"@
        || l == "pdl"@ || l == "client"@ || l == "livraison"@ {
        RawNodeRole::Sink
    } else {
        RawNodeRole::Innode
    }
}

impl RawNodeRole {
    /// Role named by `label`, compared without regard to ASCII case; any other label
    /// (the junction aliases among them) is an inner node.
    pub fn from_label(label: &str) -> (r: Self)
        ensures
            r == spec_node_role(label@),
    {
        let l = lower_chars_of(label);
        if eq_lit(&l, "source") || eq_lit(&l, "alim") || eq_lit(&l, "entry") || eq_lit(
            &l,
            "production",
        ) || eq_lit(&l, "poste") || eq_lit(&l, "poste_alim") {
            RawNodeRole::Source
        } else if eq_lit(&l, "sink") || eq_lit(&l, "livr") || eq_lit(&l, "exit") || eq_lit(
            &l,
            "consumer",
        ) || eq_lit(&l, "demand") || eq_lit(&l, "pdl") || eq_lit(&l, "client") || eq_lit(
            &l,
            "livraison",
        ) {
            RawNodeRole::Sink
        } else {
            RawNodeRole::Innode
        }
    }
}

pub open spec fn spec_connection_kind(label: Seq<char>) -> ConnectionKind {
    let l = ascii_lower(label);
    if l == "regulator"@ || l == "detendeur"@ || l == "détendeur"@ || l == "pressure_regulator"@
        || l == "pressureregulator"@ || l == "reg"@ || l == "prv"@ {
        ConnectionKind::PressureRegulator
    } else if l == "control_valve"@ || l == "controlvalve"@ || l == "vanne_regulation"@
        || l == "vanne_cv"@ || l == "cv"@ {
        ConnectionKind::ControlValve
    } else if l == "delivery_station"@ || l == "deliverystation"@ || l == "poste_livraison"@
        || l == "poste"@ || l == "pdl_poste"@ {
        ConnectionKind::DeliveryStation
    } else if l == "valve"@ || l == "vanne"@ {
        ConnectionKind::Valve
    } else if l == "shortpipe"@ || l == "short_pipe"@ || l == "liaison"@ {
        ConnectionKind::ShortPipe
    } else if l == "resistor"@ {
        ConnectionKind::Resistor
    } else if l == "compressor"@ || l == "compressor_station"@ || l == "compressorstation"@
        || l == "compresseur"@ {
        ConnectionKind::CompressorStation
    } else {
        ConnectionKind::Pipe
    }
}

impl ConnectionKind {
    /// Arc kind named by `label`, compared without regard to ASCII case; any other
    /// label (the pipe aliases among them) is a plain pipe.
    pub fn from_label(label: &str) -> (r: Self)
        ensures
            r == spec_connection_kind(label@),
    {
        let l = lower_chars_of(label);
        if eq_lit(&l, "regulator") || eq_lit(&l, "detendeur") || eq_lit(&l, "détendeur")
            || eq_lit(&l, "pressure_regulator") || eq_lit(&l, "pressureregulator") || eq_lit(
            &l,
            "reg",
        ) || eq_lit(&l, "prv") {
            ConnectionKind::PressureRegulator
        } else if eq_lit(&l, "control_valve") || eq_lit(&l, "controlvalve") || eq_lit(
            &l,
            "vanne_regulation",
        ) || eq_lit(&l, "vanne_cv") || eq_lit(&l, "cv") {
            ConnectionKind::ControlValve
        } else if eq_lit(&l, "delivery_station") || eq_lit(&l, "deliverystation") || eq_lit(
            &l,
            "poste_livraison",
        ) || eq_lit(&l, "poste") || eq_lit(&l, "pdl_poste") {
            ConnectionKind::DeliveryStation
        } else if eq_lit(&l, "valve") || eq_lit(&l, "vanne") {
            ConnectionKind::Valve
        } else if eq_lit(&l, "shortpipe") || eq_lit(&l, "short_pipe") || eq_lit(&l, "liaison") {
            ConnectionKind::ShortPipe
        } else if eq_lit(&l, "resistor") {
            ConnectionKind::Resistor
        } else if eq_lit(&l, "compressor") || eq_lit(&l, "compressor_station") || eq_lit(
            &l,
            "compressorstation",
        ) || eq_lit(&l, "compresseur") {
            ConnectionKind::CompressorStation
        } else {
            ConnectionKind::Pipe
        }
    }
}

/// The characters of `raw` with surrounding white space removed, then ASCII lower-cased.
pub fn trimmed_lower(raw: &str) -> (v: Vec<char>)
    ensures
        v@ == ascii_lower(trim(raw@)),
{
    let c = chars_of(raw);
    let (a, b) = trim_bounds(&c);
    let mut t: Vec<char> = Vec::new();
    let mut i = a;
    while i < b
        invariant
            a <= i <= b,
            b <= c@.len(),
            t@ == c@.subrange(a as int, i as int),
        decreases b - i,
    {
        t.push(c[i]);
        assert(c@.subrange(a as int, i + 1) == c@.subrange(a as int, i as int).push(c@[i as int]));
        i = i + 1;
    }
    lower_vec(&t)
}

/// Kind of a SCADA measurement.
#[derive(Debug, Clone, Copy, PartialEq, Eq, Structural)]
pub enum MeasurementType {
    Pressure,
    Flow,
}

pub open spec fn spec_measurement_type(raw: Seq<char>) -> Option<MeasurementType> {
    let l = ascii_lower(trim(raw));
    if l == "pressure"@ || l == "pression"@ || l == "p"@ {
        Some(MeasurementType::Pressure)
    } else if l == "flow"@ || l == "debit"@ || l == "débit"@ || l == "q"@ {
        Some(MeasurementType::Flow)
    } else {
        None
    }
}

/// Measurement kind named by `raw` (trimmed, ASCII case ignored); `None` for any other text.
pub fn parse_measurement_type(raw: &str) -> (r: Option<MeasurementType>)
    ensures
        r == spec_measurement_type(raw@),
{
    let l = trimmed_lower(raw);
    if eq_lit(&l, "pressure") || eq_lit(&l, "pression") || eq_lit(&l, "p") {
        Some(MeasurementType::Pressure)
    } else if eq_lit(&l, "flow") || eq_lit(&l, "debit") || eq_lit(&l, "débit") || eq_lit(&l, "q") {
        Some(MeasurementType::Flow)
    } else {
        None
    }
}

/// The label under which a node role is shown.
pub open spec fn spec_role_label(role: RawNodeRole) -> Seq<char> {
    match role {
        RawNodeRole::Source => "source"@,
        RawNodeRole::Sink => "sink"@,
        RawNodeRole::Innode => "innode"@,
    }
}

/// The label under which a node role is shown: `source`, `sink` or `innode`.
pub fn raw_node_role_label(role: RawNodeRole) -> (r: &'static str)
    ensures
        r@ == spec_role_label(role),
{
    match role {
        RawNodeRole::Source => "source",
        RawNodeRole::Sink => "sink",
        RawNodeRole::Innode => "innode",
    }
}

/// Strategy of a calibration run: one global roughness factor, or one multiplier per pipe.
#[derive(Debug, Clone, Copy, PartialEq, Eq, Structural)]
pub enum CalibrationStrategy {
    Global,
    PerPipe,
}

impl Default for CalibrationStrategy {
    fn default() -> (r: Self)
        ensures
            r == CalibrationStrategy::Global,
    {
        CalibrationStrategy::Global
    }
}

/// How compressor maps are read during a solve.
#[derive(Debug, Clone, Copy, PartialEq, Eq, Structural)]
pub enum CompressorMapMode {
    Legacy,
    Measurement,
    Biquadratic,
}

pub open spec fn spec_map_mode(raw: Seq<char>) -> Option<CompressorMapMode> {
    let l = ascii_lower(trim(raw));
    if l == "legacy"@ {
        Some(CompressorMapMode::Legacy)
    } else if l == "measurement"@ {
        Some(CompressorMapMode::Measurement)
    } else if l == "biquadratic"@ {
        Some(CompressorMapMode::Biquadratic)
    } else {
        None
    }
}

pub open spec fn spec_map_mode_label(m: CompressorMapMode) -> Seq<char> {
    match m {
        CompressorMapMode::Legacy => "legacy"@,
        CompressorMapMode::Measurement => "measurement"@,
        CompressorMapMode::Biquadratic => "biquadratic"@,
    }
}

impl CompressorMapMode {
    /// The mode named in an API request (`legacy`, `measurement` or `biquadratic`,
    /// trimmed, ASCII case ignored); `None` for any other text.
    pub fn parse_api(raw: &str) -> (r: Option<Self>)
        ensures
            r == spec_map_mode(raw@),
    {
        let l = trimmed_lower(raw);
        if eq_lit(&l, "legacy") {
            Some(CompressorMapMode::Legacy)
        } else if eq_lit(&l, "measurement") {
            Some(CompressorMapMode::Measurement)
        } else if eq_lit(&l, "biquadratic") {
            Some(CompressorMapMode::Biquadratic)
        } else {
            None
        }
    }

    /// The name of the mode in API answers.
    pub fn api_label(&self) -> (r: &'static str)
        ensures
            r@ == spec_map_mode_label(*self),
    {
        match self {
            CompressorMapMode::Legacy => "legacy",
            CompressorMapMode::Measurement => "measurement",
            CompressorMapMode::Biquadratic => "biquadratic",
        }
    }
}

/// The answer to a map-mode request: the label of the mode.
pub fn map_mode_response(mode: CompressorMapMode) -> (r: &'static str)
    ensures
        r@ == spec_map_mode_label(mode),
{
    mode.api_label()
}

/// The label of every map mode reads back as that mode.
pub proof fn lemma_map_mode_label_reads_back(m: CompressorMapMode)
    ensures
        spec_map_mode(spec_map_mode_label(m)) == Some(m),
{
    reveal_strlit("legacy");
    reveal_strlit("measurement");
    reveal_strlit("biquadratic");
    let l = spec_map_mode_label(m);
    assert(trim_start(l) == l);
    assert(trim_end(l) == l);
    assert(ascii_lower(l) =~= l);
}

/// The label of every node role reads back as that role.
pub proof fn lemma_role_label_reads_back(r: RawNodeRole)
    ensures
        spec_node_role(spec_role_label(r)) == r,
{
    reveal_strlit("source");
    reveal_strlit("sink");
    reveal_strlit("innode");
    reveal_strlit("alim");
    reveal_strlit("entry");
    reveal_strlit("production");
    reveal_strlit("poste");
    reveal_strlit("poste_alim");
    reveal_strlit("livr");
    reveal_strlit("exit");
    reveal_strlit("consumer");
    reveal_strlit("demand");
    reveal_strlit("pdl");
    reveal_strlit("client");
    reveal_strlit("livraison");
    let l = spec_role_label(r);
    assert(ascii_lower(l) =~= l);
    match r {
        RawNodeRole::Source => {},
        RawNodeRole::Sink => {
            assert(l[0] != "alim"@[0]);
        },
        RawNodeRole::Innode => {
            assert(l[0] != "source"@[0]);
            assert(l[0] != "client"@[0]);
            assert(l[0] != "demand"@[0]);
        },
    }
}

} // verus!
