//! Compressor station catalogs (GasLib `.cs`): stations with their turbo-compressor
//! measurements, speed bounds and stage configurations, read from XML.

use vstd::prelude::*;

use crate::compressor::{push_configuration, CompressorConfiguration};
use crate::decimal::{float_literal_ok, is_float_literal, parse_usize, spec_parse_usize};
use crate::magnitude::{finite_literal, is_finite_literal};
use crate::text::{ascii_lower, chars_of, eq_lit, str_eq};
use crate::xml::{
    attrs_view, event_view, is_terminal, local_name, next_event, read_attr, reader_events,
    spec_attr, spec_local_name, well_ended, xml_events, xml_reader, AttrView, XmlEvent,
    XmlEventView, XmlTag,
};

verus! {

/// One point of a compressor map; each value is the literal read, one that reads as a
/// finite `f64`.
#[derive(Debug, Clone, PartialEq, Eq)]
pub struct TurboMeasurement {
    pub speed_rpm: String,
    pub head_kj_per_kg: String,
    pub flow_m3_s: String,
}

/// What the catalog records of one station; the speed bounds are every finite literal met,
/// in order (the station's bound is their minimum, or maximum).
#[derive(Debug, Clone)]
pub struct StationRecord {
    pub id: String,
    pub characteristic_measurements: Vec<TurboMeasurement>,
    pub surgeline_measurements: Vec<TurboMeasurement>,
    pub speed_min_rpm: Vec<String>,
    pub speed_max_rpm: Vec<String>,
    pub configurations: Vec<CompressorConfiguration>,
}

/// The stations of a catalog, each identifier once, in the order first met.
#[derive(Debug, Clone)]
pub struct CompressorCatalog {
    pub stations: Vec<StationRecord>,
}

/// Which measurement list the reader is inside.
#[derive(Debug, Clone, Copy, PartialEq, Eq, Structural)]
pub enum MeasurementBlock {
    Outside,
    Surgeline,
    Characteristic,
}

/// A measurement being read: the literals met so far.
#[derive(Debug, Clone, PartialEq, Eq)]
pub struct PendingMeasurement {
    pub speed_rpm: Option<String>,
    pub head_kj_per_kg: Option<String>,
    pub flow_m3_s: Option<String>,
}

pub type MeasurementView = (Seq<char>, Seq<char>, Seq<char>);

pub type PendingView = (Option<Seq<char>>, Option<Seq<char>>, Option<Seq<char>>);

pub struct StationView {
    pub id: Seq<char>,
    pub characteristic: Seq<MeasurementView>,
    pub surgeline: Seq<MeasurementView>,
    pub speed_min: Seq<Seq<char>>,
    pub speed_max: Seq<Seq<char>>,
    pub configurations: Seq<CompressorConfiguration>,
}

pub open spec fn measurement_view(m: TurboMeasurement) -> MeasurementView {
    (m.speed_rpm@, m.head_kj_per_kg@, m.flow_m3_s@)
}

pub open spec fn measurements_view(v: Seq<TurboMeasurement>) -> Seq<MeasurementView> {
    v.map_values(|m: TurboMeasurement| measurement_view(m))
}

pub open spec fn opt_view(o: Option<String>) -> Option<Seq<char>> {
    match o {
        Some(s) => Some(s@),
        None => None,
    }
}

pub open spec fn pending_view(p: PendingMeasurement) -> PendingView {
    (opt_view(p.speed_rpm), opt_view(p.head_kj_per_kg), opt_view(p.flow_m3_s))
}

pub open spec fn texts_view(v: Seq<String>) -> Seq<Seq<char>> {
    v.map_values(|s: String| s@)
}

pub open spec fn station_view(s: StationRecord) -> StationView {
    StationView {
        id: s.id@,
        characteristic: measurements_view(s.characteristic_measurements@),
        surgeline: measurements_view(s.surgeline_measurements@),
        speed_min: texts_view(s.speed_min_rpm@),
        speed_max: texts_view(s.speed_max_rpm@),
        configurations: s.configurations@,
    }
}

pub open spec fn stations_view(v: Seq<StationRecord>) -> Seq<StationView> {
    v.map_values(|s: StationRecord| station_view(s))
}

pub open spec fn empty_station(id: Seq<char>) -> StationView {
    StationView {
        id,
        characteristic: Seq::empty(),
        surgeline: Seq::empty(),
        speed_min: Seq::empty(),
        speed_max: Seq::empty(),
        configurations: Seq::empty(),
    }
}

/// Whether no two stations share an identifier.
pub open spec fn distinct_ids(cat: Seq<StationView>) -> bool {
    forall|i: int, j: int| 0 <= i < j < cat.len() ==> cat[i].id != cat[j].id
}

/// The catalog with a station named `id`: unchanged if there is one, else with an empty
/// station of that name added at the end.
pub open spec fn with_station(cat: Seq<StationView>, id: Seq<char>) -> Seq<StationView> {
    if exists|k: int| 0 <= k < cat.len() && cat[k].id == id {
        cat
    } else {
        cat.push(empty_station(id))
    }
}

/// Position of the station named `id` in a catalog whose identifiers are distinct.
pub open spec fn station_at(cat: Seq<StationView>, id: Seq<char>) -> int {
    choose|k: int| 0 <= k < cat.len() && cat[k].id == id
}

/// The catalog after changing the station `id` (added first if missing) by `f`.
pub open spec fn change_station(cat: Seq<StationView>, id: Seq<char>, f: spec_fn(StationView) -> StationView) -> Seq<StationView> {
    let c = with_station(cat, id);
    c.update(station_at(c, id), f(c[station_at(c, id)]))
}

pub type CatalogState = (Seq<StationView>, Option<Seq<char>>, MeasurementBlock, Option<PendingView>);

/// A literal that reads as a finite `f64`.
pub open spec fn finite_value(v: Seq<char>) -> bool {
    is_float_literal(v) && is_finite_literal(v)
}

/// A measurement with its three values, each finite.
pub open spec fn built(p: PendingView) -> Option<MeasurementView> {
    match p {
        (Some(s), Some(h), Some(f)) => if finite_value(s) && finite_value(h) && finite_value(f) {
            Some((s, h, f))
        } else {
            None
        },
        _ => None,
    }
}

/// A `value` attribute that reads as an `f64`.
pub open spec fn float_attr(attrs: Seq<AttrView>) -> Option<Seq<char>> {
    match spec_attr(attrs, "value"@) {
        Some(v) => if is_float_literal(v) {
            Some(v)
        } else {
            None
        },
        None => None,
    }
}

pub open spec fn push_speed_min(v: Seq<char>) -> spec_fn(StationView) -> StationView {
    |s: StationView| if finite_value(v) { StationView { speed_min: s.speed_min.push(v), ..s } } else { s }
}

pub open spec fn push_speed_max(v: Seq<char>) -> spec_fn(StationView) -> StationView {
    |s: StationView| if finite_value(v) { StationView { speed_max: s.speed_max.push(v), ..s } } else { s }
}

pub open spec fn push_config(n: nat) -> spec_fn(StationView) -> StationView {
    |s: StationView| StationView {
        configurations: s.configurations.push(
            CompressorConfiguration { nr_of_serial_stages: if n < 1 { 1 } else { n as usize } },
        ),
        ..s
    }
}

pub open spec fn push_measurement(block: MeasurementBlock, m: MeasurementView) -> spec_fn(StationView) -> StationView {
    |s: StationView| match block {
        MeasurementBlock::Characteristic => StationView { characteristic: s.characteristic.push(m), ..s },
        MeasurementBlock::Surgeline => StationView { surgeline: s.surgeline.push(m), ..s },
        MeasurementBlock::Outside => s,
    }
}

/// A measurement value tag (`speed`, `adiabaticHead`, `volumetricFlowrate`) inside a list.
pub open spec fn cat_value(st: CatalogState, slot: int, attrs: Seq<AttrView>) -> CatalogState {
    if st.2 != MeasurementBlock::Outside {
        match (st.3, float_attr(attrs)) {
            (Some(p), Some(v)) => (
                st.0,
                st.1,
                st.2,
                Some(
                    if slot == 0 {
                        (Some(v), p.1, p.2)
                    } else if slot == 1 {
                        (p.0, Some(v), p.2)
                    } else {
                        (p.0, p.1, Some(v))
                    },
                ),
            ),
            _ => st,
        }
    } else {
        st
    }
}

/// A start tag (`empty == false`) or an empty-element tag read in state `st`.
pub open spec fn cat_open(st: CatalogState, qname: Seq<char>, attrs: Seq<AttrView>, empty: bool) -> CatalogState {
    let n = spec_local_name(qname);
    if n == "compressorstation"@ {
        match spec_attr(attrs, "id"@) {
            Some(sid) => (with_station(st.0, sid), if empty { st.1 } else { Some(sid) }, st.2, st.3),
            None => st,
        }
    } else if !empty && n == "surgelinemeasurements"@ {
        (st.0, st.1, MeasurementBlock::Surgeline, st.3)
    } else if !empty && n == "characteristicdiagrammeasurements"@ {
        (st.0, st.1, MeasurementBlock::Characteristic, st.3)
    } else if !empty && n == "measurement"@ {
        if st.2 != MeasurementBlock::Outside && st.1 is Some {
            (st.0, st.1, st.2, Some((None, None, None)))
        } else {
            st
        }
    } else if n == "configuration"@ {
        match (st.1, spec_attr(attrs, "nrofserialstages"@)) {
            (Some(sid), Some(raw)) => match spec_parse_usize(raw) {
                Some(k) => (change_station(st.0, sid, push_config(k)), st.1, st.2, st.3),
                None => st,
            },
            _ => st,
        }
    } else if n == "speedmin"@ {
        match (st.1, float_attr(attrs)) {
            (Some(sid), Some(v)) => (change_station(st.0, sid, push_speed_min(v)), st.1, st.2, st.3),
            _ => st,
        }
    } else if n == "speedmax"@ {
        match (st.1, float_attr(attrs)) {
            (Some(sid), Some(v)) => (change_station(st.0, sid, push_speed_max(v)), st.1, st.2, st.3),
            _ => st,
        }
    } else if n == "speed"@ {
        cat_value(st, 0, attrs)
    } else if n == "adiabatichead"@ {
        cat_value(st, 1, attrs)
    } else if n == "volumetricflowrate"@ {
        cat_value(st, 2, attrs)
    } else {
        st
    }
}

/// An end tag read in state `st`.
pub open spec fn cat_close(st: CatalogState, qname: Seq<char>) -> CatalogState {
    let n = spec_local_name(qname);
    if n == "measurement"@ {
        let cleared = (st.0, st.1, st.2, None::<PendingView>);
        if st.2 != MeasurementBlock::Outside {
            match (st.1, st.3) {
                (Some(sid), Some(p)) => match built(p) {
                    Some(m) => (change_station(st.0, sid, push_measurement(st.2, m)), st.1, st.2, None),
                    None => cleared,
                },
                _ => cleared,
            }
        } else {
            cleared
        }
    } else if n == "surgelinemeasurements"@ || n == "characteristicdiagrammeasurements"@ {
        (st.0, st.1, MeasurementBlock::Outside, st.3)
    } else if n == "compressorstation"@ {
        (st.0, None, st.2, st.3)
    } else {
        st
    }
}

pub open spec fn cat_step(st: CatalogState, e: XmlEventView) -> CatalogState {
    match e {
        XmlEventView::Start(n, a) => cat_open(st, n, a, false),
        XmlEventView::Empty(n, a) => cat_open(st, n, a, true),
        XmlEventView::End(n) => cat_close(st, n),
        _ => st,
    }
}

/// The stations read from `events` in state `st`, up to the first end of input, or the
/// first error met.
pub open spec fn cat_run(st: CatalogState, events: Seq<XmlEventView>) -> Result<Seq<StationView>, Seq<char>>
    decreases events.len(),
{
    if events.len() == 0 {
        Ok(st.0)
    } else {
        match events[0] {
            XmlEventView::Eof => Ok(st.0),
            XmlEventView::Error(m) => Err(m),
            e => cat_run(cat_step(st, e), events.drop_first()),
        }
    }
}

pub open spec fn cat_initial() -> CatalogState {
    (Seq::empty(), None, MeasurementBlock::Outside, None)
}

/// The reading state of a catalog.
pub struct CatalogReader {
    pub stations: Vec<StationRecord>,
    pub station: Option<String>,
    pub block: MeasurementBlock,
    pub pending: Option<PendingMeasurement>,
}

pub open spec fn catalog_reader_view(r: CatalogReader) -> CatalogState {
    (
        stations_view(r.stations@),
        opt_view(r.station),
        r.block,
        match r.pending {
            Some(p) => Some(pending_view(p)),
            None => None,
        },
    )
}

fn empty_record(id: &String) -> (r: StationRecord)
    ensures
        station_view(r) == empty_station(id@),
{
    let r = StationRecord {
        id: id.clone(),
        characteristic_measurements: Vec::new(),
        surgeline_measurements: Vec::new(),
        speed_min_rpm: Vec::new(),
        speed_max_rpm: Vec::new(),
        configurations: Vec::new(),
    };
    assert(measurements_view(r.characteristic_measurements@) =~= Seq::<MeasurementView>::empty());
    assert(measurements_view(r.surgeline_measurements@) =~= Seq::<MeasurementView>::empty());
    assert(texts_view(r.speed_min_rpm@) =~= Seq::<Seq<char>>::empty());
    assert(texts_view(r.speed_max_rpm@) =~= Seq::<Seq<char>>::empty());
    assert(r.configurations@ =~= Seq::<CompressorConfiguration>::empty());
    r
}

/// Makes sure a station named `id` exists; gives its position.
fn station_index(stations: &mut Vec<StationRecord>, id: &String) -> (k: usize)
    requires
        distinct_ids(stations_view(old(stations)@)),
    ensures
        stations_view(final(stations)@) == with_station(stations_view(old(stations)@), id@),
        distinct_ids(stations_view(final(stations)@)),
        k < final(stations)@.len(),
        k == station_at(stations_view(final(stations)@), id@),
{
    let ghost sv = stations_view(stations@);
    let mut k: usize = 0;
    while k < stations.len() && !str_eq(stations[k].id.as_str(), id.as_str())
        invariant
            sv == stations_view(stations@),
            k <= stations@.len(),
            forall|j: int| 0 <= j < k ==> #[trigger] sv[j].id != id@,
        decreases stations@.len() - k,
    {
        k = k + 1;
    }
    if k == stations.len() {
        assert(!exists|j: int| 0 <= j < sv.len() && sv[j].id == id@);
        let rec = empty_record(id);
        stations.push(rec);
        assert(stations_view(stations@) =~= sv.push(empty_station(id@)));
    } else {
        assert(sv[k as int].id == id@);
    }
    proof {
        let nv = stations_view(stations@);
        assert(nv[k as int].id == id@);
        let c = station_at(nv, id@);
        assert(0 <= c < nv.len() && nv[c].id == id@);
        if c != k {
            if c < k {
                assert(nv[c].id != nv[k as int].id);
            } else {
                assert(nv[k as int].id != nv[c].id);
            }
        }
    }
    k
}

impl CatalogReader {
    pub fn new() -> (r: Self)
        ensures
            catalog_reader_view(r) == cat_initial(),
            distinct_ids(catalog_reader_view(r).0),
    {
        let r = CatalogReader { stations: Vec::new(), station: None, block: MeasurementBlock::Outside, pending: None };
        assert(stations_view(r.stations@) =~= Seq::<StationView>::empty());
        r
    }

    /// Changes the station `id` (added first if missing) by `f`, written out in `edit`.
    fn edit_station(&mut self, id: &String, edit: StationEdit)
        requires
            distinct_ids(stations_view(old(self).stations@)),
        ensures
            final(self).station == old(self).station,
            final(self).block == old(self).block,
            final(self).pending == old(self).pending,
            stations_view(final(self).stations@) == change_station(stations_view(old(self).stations@), id@, edit_fn(edit)),
            distinct_ids(stations_view(final(self).stations@)),
    {
        let k = station_index(&mut self.stations, id);
        let ghost c = stations_view(self.stations@);
        let mut s = self.stations.remove(k);
        let ghost before = station_view(s);
        match edit {
            StationEdit::Config(n) => {
                let ghost cf = s.configurations@;
                push_configuration(&mut s.configurations, n);
            },
            StationEdit::SpeedMin(v) => {
                let cv = chars_of(v.as_str());
                if float_literal_ok(&cv) && finite_literal(&cv) {
                    let ghost t = s.speed_min_rpm@;
                    s.speed_min_rpm.push(v);
                    assert(texts_view(s.speed_min_rpm@) =~= texts_view(t).push(cv@));
                }
            },
            StationEdit::SpeedMax(v) => {
                let cv = chars_of(v.as_str());
                if float_literal_ok(&cv) && finite_literal(&cv) {
                    let ghost t = s.speed_max_rpm@;
                    s.speed_max_rpm.push(v);
                    assert(texts_view(s.speed_max_rpm@) =~= texts_view(t).push(cv@));
                }
            },
            StationEdit::Measurement(block, m) => {
                let ghost mv = measurement_view(m);
                match block {
                    MeasurementBlock::Characteristic => {
                        let ghost t = s.characteristic_measurements@;
                        s.characteristic_measurements.push(m);
                        assert(measurements_view(s.characteristic_measurements@) =~= measurements_view(t).push(mv));
                    },
                    MeasurementBlock::Surgeline => {
                        let ghost t = s.surgeline_measurements@;
                        s.surgeline_measurements.push(m);
                        assert(measurements_view(s.surgeline_measurements@) =~= measurements_view(t).push(mv));
                    },
                    MeasurementBlock::Outside => {},
                }
            },
        }
        assert(station_view(s) == edit_fn(edit)(before));
        self.stations.insert(k, s);
        assert(stations_view(self.stations@) =~= c.update(k as int, station_view(s)));
        assert(distinct_ids(stations_view(self.stations@))) by {
            let nv = stations_view(self.stations@);
            assert forall|i: int, j: int| 0 <= i < j < nv.len() implies nv[i].id != nv[j].id by {
                assert(c[i].id != c[j].id);
                if i == k {
                    assert(nv[i].id == c[i].id);
                }
                if j == k {
                    assert(nv[j].id == c[j].id);
                }
            }
        }
    }

    fn open_tag(&mut self, tag: &XmlTag, empty: bool)
        requires
            distinct_ids(catalog_reader_view(*old(self)).0),
        ensures
            catalog_reader_view(*final(self)) == cat_open(catalog_reader_view(*old(self)), tag.name@, attrs_view(*tag), empty),
            distinct_ids(catalog_reader_view(*final(self)).0),
    {
        proof {
            reveal_strlit("id");
            reveal_strlit("value");
            reveal_strlit("nrOfSerialStages");
            reveal_strlit("nrofserialstages");
            assert(ascii_lower("id"@) =~= "id"@);
            assert(ascii_lower("value"@) =~= "value"@);
            assert(ascii_lower("nrOfSerialStages"@) =~= "nrofserialstages"@);
        }
        let name = local_name(tag.name.as_str());
        let n = chars_of(name.as_str());
        if eq_lit(&n, "compressorstation") {
            match read_attr(tag, "id") {
                Some(sid) => {
                    let _ = station_index(&mut self.stations, &sid);
                    if !empty {
                        self.station = Some(sid);
                    }
                },
                None => {},
            }
        } else if !empty && eq_lit(&n, "surgelinemeasurements") {
            self.block = MeasurementBlock::Surgeline;
        } else if !empty && eq_lit(&n, "characteristicdiagrammeasurements") {
            self.block = MeasurementBlock::Characteristic;
        } else if !empty && eq_lit(&n, "measurement") {
            if self.block != MeasurementBlock::Outside && self.station.is_some() {
                self.pending = Some(PendingMeasurement { speed_rpm: None, head_kj_per_kg: None, flow_m3_s: None });
            }
        } else if eq_lit(&n, "configuration") {
            if let Some(sid) = &self.station {
                let sid = sid.clone();
                match read_attr(tag, "nrOfSerialStages") {
                    Some(raw) => {
                        let rv = chars_of(raw.as_str());
                        match parse_usize(&rv) {
                            Some(k) => self.edit_station(&sid, StationEdit::Config(k)),
                            None => {},
                        }
                    },
                    None => {},
                }
            }
        } else if eq_lit(&n, "speedmin") || eq_lit(&n, "speedmax") {
            if let Some(sid) = &self.station {
                let sid = sid.clone();
                match float_attr_exec(tag) {
                    Some(v) => {
                        if eq_lit(&n, "speedmin") {
                            self.edit_station(&sid, StationEdit::SpeedMin(v));
                        } else {
                            self.edit_station(&sid, StationEdit::SpeedMax(v));
                        }
                    },
                    None => {},
                }
            }
        } else if eq_lit(&n, "speed") {
            self.set_value(0, tag);
        } else if eq_lit(&n, "adiabatichead") {
            self.set_value(1, tag);
        } else if eq_lit(&n, "volumetricflowrate") {
            self.set_value(2, tag);
        }
    }

    fn set_value(&mut self, slot: u8, tag: &XmlTag)
        requires
            slot <= 2,
        ensures
            catalog_reader_view(*final(self)) == cat_value(catalog_reader_view(*old(self)), slot as int, attrs_view(*tag)),
            final(self).stations == old(self).stations,
    {
        if self.block == MeasurementBlock::Outside || self.pending.is_none() {
            return;
        }
        match float_attr_exec(tag) {
            Some(v) => {
                let mut p = self.pending.take().unwrap();
                if slot == 0 {
                    p.speed_rpm = Some(v);
                } else if slot == 1 {
                    p.head_kj_per_kg = Some(v);
                } else {
                    p.flow_m3_s = Some(v);
                }
                self.pending = Some(p);
            },
            None => {},
        }
    }

    fn close_tag(&mut self, qname: &String)
        requires
            distinct_ids(catalog_reader_view(*old(self)).0),
        ensures
            catalog_reader_view(*final(self)) == cat_close(catalog_reader_view(*old(self)), qname@),
            distinct_ids(catalog_reader_view(*final(self)).0),
    {
        let name = local_name(qname.as_str());
        let n = chars_of(name.as_str());
        if eq_lit(&n, "measurement") {
            let p = self.pending.take();
            if self.block != MeasurementBlock::Outside {
                if let Some(sid) = &self.station {
                    let sid = sid.clone();
                    match p {
                        Some(pp) => match build_measurement(pp) {
                            Some(m) => {
                                let block = self.block;
                                self.edit_station(&sid, StationEdit::Measurement(block, m));
                            },
                            None => {},
                        },
                        None => {},
                    }
                }
            }
        } else if eq_lit(&n, "surgelinemeasurements") || eq_lit(&n, "characteristicdiagrammeasurements") {
            self.block = MeasurementBlock::Outside;
        } else if eq_lit(&n, "compressorstation") {
            self.station = None;
        }
    }

    /// Takes one event into account (see `cat_step`).
    pub fn step(&mut self, event: &XmlEvent)
        requires
            distinct_ids(catalog_reader_view(*old(self)).0),
        ensures
            catalog_reader_view(*final(self)) == cat_step(catalog_reader_view(*old(self)), event_view(*event)),
            distinct_ids(catalog_reader_view(*final(self)).0),
    {
        match event {
            XmlEvent::Start(t) => self.open_tag(t, false),
            XmlEvent::Empty(t) => self.open_tag(t, true),
            XmlEvent::End(n) => self.close_tag(n),
            _ => {},
        }
    }
}

/// A change made to one station.
pub enum StationEdit {
    Config(usize),
    SpeedMin(String),
    SpeedMax(String),
    Measurement(MeasurementBlock, TurboMeasurement),
}

pub open spec fn edit_fn(e: StationEdit) -> spec_fn(StationView) -> StationView {
    match e {
        StationEdit::Config(n) => push_config(n as nat),
        StationEdit::SpeedMin(v) => push_speed_min(v@),
        StationEdit::SpeedMax(v) => push_speed_max(v@),
        StationEdit::Measurement(b, m) => push_measurement(b, measurement_view(m)),
    }
}

fn float_attr_exec(tag: &XmlTag) -> (r: Option<String>)
    ensures
        opt_view(r) == float_attr(attrs_view(*tag)),
{
    proof {
        reveal_strlit("value");
        assert(ascii_lower("value"@) =~= "value"@);
    }
    match read_attr(tag, "value") {
        Some(v) => {
            let cv = chars_of(v.as_str());
            if float_literal_ok(&cv) {
                Some(v)
            } else {
                None
            }
        },
        None => None,
    }
}

fn build_measurement(p: PendingMeasurement) -> (r: Option<TurboMeasurement>)
    ensures
        match r {
            Some(m) => built(pending_view(p)) == Some(measurement_view(m)),
            None => built(pending_view(p)) is None,
        },
{
    match (p.speed_rpm, p.head_kj_per_kg, p.flow_m3_s) {
        (Some(s), Some(h), Some(f)) => {
            let sv = chars_of(s.as_str());
            let hv = chars_of(h.as_str());
            let fv = chars_of(f.as_str());
            if !float_literal_ok(&sv) || !float_literal_ok(&hv) || !float_literal_ok(&fv) {
                return None;
            }
            if finite_literal(&sv) && finite_literal(&hv) && finite_literal(&fv) {
                Some(TurboMeasurement { speed_rpm: s, head_kj_per_kg: h, flow_m3_s: f })
            } else {
                None
            }
        },
        _ => None,
    }
}

/// The compressor stations of the `.cs` document `raw`. A station is recorded at its first
/// `compressorStation` tag with an `id`; inside it, `configuration` tags add their stage
/// count (a zero counts as one), `speedMin` / `speedMax` their finite value, and each
/// `measurement` of a surge-line or characteristic-diagram list, once closed, its speed,
/// head and flow when all three are present and finite. Names are compared by local name,
/// ignoring ASCII case. An XML error ends the reading.
pub fn parse_compressor_catalog_from_str(raw: &str) -> (r: Result<CompressorCatalog, String>)
    ensures
        match r {
            Ok(c) => cat_run(cat_initial(), xml_events(raw@)) == Ok::<Seq<StationView>, Seq<char>>(stations_view(c.stations@))
                && distinct_ids(stations_view(c.stations@)),
            Err(m) => cat_run(cat_initial(), xml_events(raw@)) == Err::<Seq<StationView>, Seq<char>>(m@),
        },
{
    let mut reader = xml_reader(raw);
    let mut st = CatalogReader::new();
    loop
        invariant
            well_ended(reader_events(reader)),
            distinct_ids(catalog_reader_view(st).0),
            cat_run(catalog_reader_view(st), reader_events(reader)) == cat_run(cat_initial(), xml_events(raw@)),
        decreases reader_events(reader).len(),
    {
        let ghost rest = reader_events(reader);
        let ev = next_event(&mut reader);
        match ev {
            XmlEvent::Eof => {
                return Ok(CompressorCatalog { stations: st.stations });
            },
            XmlEvent::Error(m) => {
                return Err(m);
            },
            _ => {
                assert(!is_terminal(rest[0]));
                assert(rest.len() > 1);
                st.step(&ev);
                assert(well_ended(reader_events(reader))) by {
                    let r2 = reader_events(reader);
                    assert forall|i: int| 0 <= i < r2.len() - 1 implies !is_terminal(#[trigger] r2[i]) by {
                        assert(r2[i] == rest[i + 1]);
                    }
                }
            },
        }
    }
}

impl StationRecord {
    /// The measurements a compressor map is built from: the characteristic diagram when
    /// there is one, else the surge line.
    pub fn map_measurements(&self) -> (r: &Vec<TurboMeasurement>)
        ensures
            *r == if self.characteristic_measurements@.len() > 0 {
                self.characteristic_measurements
            } else {
                self.surgeline_measurements
            },
    {
        if self.characteristic_measurements.len() > 0 {
            &self.characteristic_measurements
        } else {
            &self.surgeline_measurements
        }
    }

    /// The largest number of serial stages among the configurations, at least one.
    pub fn max_serial_stages(&self) -> (r: usize)
        ensures
            r >= 1,
            forall|i: int| 0 <= i < self.configurations@.len() ==> crate::compressor::stages(#[trigger] self.configurations@[i]) <= r,
            self.configurations@.len() == 0 ==> r == 1,
            self.configurations@.len() > 0 ==> exists|i: int| 0 <= i < self.configurations@.len()
                && crate::compressor::stages(#[trigger] self.configurations@[i]) == r,
    {
        crate::compressor::max_serial_stages(&self.configurations)
    }
}

impl CompressorCatalog {
    /// The station named `id`.
    pub fn station(&self, id: &str) -> (r: Option<&StationRecord>)
        ensures
            match r {
                Some(s) => s.id@ == id@ && exists|k: int| 0 <= k < self.stations@.len() && self.stations@[k] == *s,
                None => forall|k: int| 0 <= k < self.stations@.len() ==> #[trigger] self.stations@[k].id@ != id@,
            },
    {
        let mut k: usize = 0;
        while k < self.stations.len()
            invariant
                k <= self.stations@.len(),
                forall|j: int| 0 <= j < k ==> #[trigger] self.stations@[j].id@ != id@,
            decreases self.stations@.len() - k,
        {
            if str_eq(self.stations[k].id.as_str(), id) {
                return Some(&self.stations[k]);
            }
            k = k + 1;
        }
        None
    }
}

} // verus!
