//! GasLib combined decisions (`.cdf`): reading them from XML, choosing decisions by
//! identifier, and applying them to the valves and compressor stations of a network.

use vstd::prelude::*;

use crate::decimal::{parse_i32, spec_parse_i32};
use crate::text::{chars_of, eq_lit, str_eq};
use crate::xml::{
    attrs_view, event_view, is_terminal, local_name, next_event, read_attr, reader_events,
    spec_attr, spec_local_name, well_ended, xml_events, xml_reader, AttrView, XmlEvent,
    XmlEventView, XmlTag,
};

verus! {

#[derive(Debug, Clone, Copy, PartialEq, Eq, Structural)]
pub enum CdfElementKind {
    Valve,
    ControlValve,
    CompressorStation,
}

/// The state a decision sets for one element.
#[derive(Debug, Clone)]
pub struct CdfElementState {
    pub id: String,
    pub kind: CdfElementKind,
    pub active: bool,
}

#[derive(Debug, Clone)]
pub struct CdfDecision {
    pub id: String,
    pub elements: Vec<CdfElementState>,
}

#[derive(Debug, Clone)]
pub struct CdfDecisionGroup {
    pub id: String,
    pub decisions: Vec<CdfDecision>,
}

#[derive(Debug, Clone)]
pub struct CombinedDecisions {
    pub groups: Vec<CdfDecisionGroup>,
}

pub type ElementView = (Seq<char>, CdfElementKind, bool);

pub type DecisionView = (Seq<char>, Seq<ElementView>);

pub type GroupView = (Seq<char>, Seq<DecisionView>);

pub open spec fn element_view(e: CdfElementState) -> ElementView {
    (e.id@, e.kind, e.active)
}

pub open spec fn decision_view(d: CdfDecision) -> DecisionView {
    (d.id@, d.elements@.map_values(|e: CdfElementState| element_view(e)))
}

pub open spec fn group_view(g: CdfDecisionGroup) -> GroupView {
    (g.id@, g.decisions@.map_values(|d: CdfDecision| decision_view(d)))
}

pub open spec fn groups_view(v: Seq<CdfDecisionGroup>) -> Seq<GroupView> {
    v.map_values(|g: CdfDecisionGroup| group_view(g))
}

/// What has been read so far: the finished groups, and the group and decision being read.
pub struct CdfReader {
    pub groups: Vec<CdfDecisionGroup>,
    pub group: Option<CdfDecisionGroup>,
    pub decision: Option<CdfDecision>,
}

pub type ReaderView = (Seq<GroupView>, Option<GroupView>, Option<DecisionView>);

pub open spec fn cdf_reader_view(r: CdfReader) -> ReaderView {
    (
        groups_view(r.groups@),
        match r.group {
            Some(g) => Some(group_view(g)),
            None => None,
        },
        match r.decision {
            Some(d) => Some(decision_view(d)),
            None => None,
        },
    )
}

/// An attribute value, or the empty text when it is absent.
pub open spec fn attr_or_empty(attrs: Seq<AttrView>, key: Seq<char>) -> Seq<char> {
    match spec_attr(attrs, key) {
        Some(v) => v,
        None => Seq::empty(),
    }
}

/// An element is active when its `value` attribute reads as a non-zero `i32`.
pub open spec fn element_active(attrs: Seq<AttrView>) -> bool {
    match spec_attr(attrs, "value"@) {
        Some(v) => match spec_parse_i32(v) {
            Some(n) => n != 0,
            None => false,
        },
        None => false,
    }
}

pub open spec fn element_kind_of(name: Seq<char>) -> Option<CdfElementKind> {
    if name == "valve"@ {
        Some(CdfElementKind::Valve)
    } else if name == "controlvalve"@ {
        Some(CdfElementKind::ControlValve)
    } else if name == "compressorstation"@ {
        Some(CdfElementKind::CompressorStation)
    } else {
        None
    }
}

/// A start (or empty-element) tag read while in state `st`.
pub open spec fn cdf_open(st: ReaderView, qname: Seq<char>, attrs: Seq<AttrView>) -> ReaderView {
    let name = spec_local_name(qname);
    if name == "decisiongroup"@ {
        (st.0, Some((attr_or_empty(attrs, "id"@), Seq::empty())), st.2)
    } else if name == "decision"@ {
        (st.0, st.1, Some((attr_or_empty(attrs, "id"@), Seq::empty())))
    } else {
        match (element_kind_of(name), st.2) {
            (Some(kind), Some(d)) => (st.0, st.1, Some((d.0, d.1.push((attr_or_empty(attrs, "id"@), kind, element_active(attrs)))))),
            _ => st,
        }
    }
}

/// An end tag read while in state `st`.
pub open spec fn cdf_close(st: ReaderView, qname: Seq<char>) -> ReaderView {
    let name = spec_local_name(qname);
    if name == "decision"@ {
        match (st.1, st.2) {
            (Some(g), Some(d)) => (st.0, Some((g.0, g.1.push(d))), None),
            _ => (st.0, st.1, None),
        }
    } else if name == "decisiongroup"@ {
        match st.1 {
            Some(g) => (st.0.push(g), None, st.2),
            None => st,
        }
    } else {
        st
    }
}

pub open spec fn cdf_step(st: ReaderView, e: XmlEventView) -> ReaderView {
    match e {
        XmlEventView::Start(n, a) => cdf_open(st, n, a),
        XmlEventView::Empty(n, a) => cdf_open(st, n, a),
        XmlEventView::End(n) => cdf_close(st, n),
        _ => st,
    }
}

/// The groups read from `events` in state `st`, up to the first end of input, or the first
/// error met.
pub open spec fn cdf_run(st: ReaderView, events: Seq<XmlEventView>) -> Result<Seq<GroupView>, Seq<char>>
    decreases events.len(),
{
    if events.len() == 0 {
        Ok(st.0)
    } else {
        match events[0] {
            XmlEventView::Eof => Ok(st.0),
            XmlEventView::Error(m) => Err(m),
            e => cdf_run(cdf_step(st, e), events.drop_first()),
        }
    }
}

pub open spec fn cdf_initial() -> ReaderView {
    (Seq::empty(), None, None)
}

impl CdfReader {
    pub fn new() -> (r: Self)
        ensures
            cdf_reader_view(r) == cdf_initial(),
    {
        let r = CdfReader { groups: Vec::new(), group: None, decision: None };
        assert(groups_view(r.groups@) =~= Seq::<GroupView>::empty());
        r
    }

    fn open_tag(&mut self, tag: &XmlTag)
        ensures
            cdf_reader_view(*final(self)) == cdf_open(cdf_reader_view(*old(self)), tag.name@, attrs_view(*tag)),
    {
        let name = local_name(tag.name.as_str());
        let nv = chars_of(name.as_str());
        proof {
            reveal_strlit("id");
            assert(crate::text::ascii_lower("id"@) =~= "id"@);
        }
        if eq_lit(&nv, "decisiongroup") {
            let id = attr_string(tag, "id");
            let g = CdfDecisionGroup { id, decisions: Vec::new() };
            assert(g.decisions@.map_values(|d: CdfDecision| decision_view(d)) =~= Seq::<DecisionView>::empty());
            self.group = Some(g);
        } else if eq_lit(&nv, "decision") {
            let id = attr_string(tag, "id");
            let d = CdfDecision { id, elements: Vec::new() };
            assert(d.elements@.map_values(|e: CdfElementState| element_view(e)) =~= Seq::<ElementView>::empty());
            self.decision = Some(d);
        } else {
            let kind = if eq_lit(&nv, "valve") {
                CdfElementKind::Valve
            } else if eq_lit(&nv, "controlvalve") {
                CdfElementKind::ControlValve
            } else if eq_lit(&nv, "compressorstation") {
                CdfElementKind::CompressorStation
            } else {
                return;
            };
            if self.decision.is_none() {
                return;
            }
            let id = attr_string(tag, "id");
            let active = element_is_active(tag);
            let el = CdfElementState { id, kind, active };
            let mut d = self.decision.take().unwrap();
            let ghost before = d.elements@;
            d.elements.push(el);
            assert(d.elements@.map_values(|e: CdfElementState| element_view(e))
                =~= before.map_values(|e: CdfElementState| element_view(e)).push(element_view(el)));
            self.decision = Some(d);
        }
    }

    fn close_tag(&mut self, qname: &String)
        ensures
            cdf_reader_view(*final(self)) == cdf_close(cdf_reader_view(*old(self)), qname@),
    {
        let name = local_name(qname.as_str());
        let nv = chars_of(name.as_str());
        if eq_lit(&nv, "decision") {
            let d = self.decision.take();
            match d {
                Some(dd) => {
                    if self.group.is_some() {
                        let mut g = self.group.take().unwrap();
                        let ghost before = g.decisions@;
                        g.decisions.push(dd);
                        assert(g.decisions@.map_values(|x: CdfDecision| decision_view(x))
                            =~= before.map_values(|x: CdfDecision| decision_view(x)).push(decision_view(dd)));
                        self.group = Some(g);
                    }
                },
                None => {},
            }
        } else if eq_lit(&nv, "decisiongroup") {
            if self.group.is_some() {
                let g = self.group.take().unwrap();
                let ghost before = self.groups@;
                self.groups.push(g);
                assert(groups_view(self.groups@) =~= groups_view(before).push(group_view(g)));
            }
        }
    }

    /// Takes one event into account (see `cdf_step`).
    pub fn step(&mut self, event: &XmlEvent)
        ensures
            cdf_reader_view(*final(self)) == cdf_step(cdf_reader_view(*old(self)), event_view(*event)),
    {
        match event {
            XmlEvent::Start(t) => self.open_tag(t),
            XmlEvent::Empty(t) => self.open_tag(t),
            XmlEvent::End(n) => self.close_tag(n),
            _ => {},
        }
    }
}

/// The value of attribute `key`, or the empty text.
fn attr_string(tag: &XmlTag, key: &str) -> (r: String)
    ensures
        r@ == attr_or_empty(attrs_view(*tag), crate::text::ascii_lower(key@)),
{
    match read_attr(tag, key) {
        Some(v) => v,
        None => String::new(),
    }
}

fn element_is_active(tag: &XmlTag) -> (r: bool)
    ensures
        r == element_active(attrs_view(*tag)),
{
    proof {
        reveal_strlit("value");
        assert(crate::text::ascii_lower("value"@) =~= "value"@);
    }
    match read_attr(tag, "value") {
        Some(v) => {
            let cv = chars_of(v.as_str());
            match parse_i32(&cv) {
                Some(n) => n != 0,
                None => false,
            }
        },
        None => false,
    }
}

/// The decision groups of the `.cdf` document `raw`: each `decisionGroup` with the
/// `decision`s closed inside it, each decision with its `valve`, `controlValve` and
/// `compressorStation` elements (active when their `value` is a non-zero integer); names
/// are compared by local name, ignoring ASCII case. An XML error ends the reading.
pub fn parse_combined_decisions_from_str(raw: &str) -> (r: Result<CombinedDecisions, String>)
    ensures
        match r {
            Ok(c) => cdf_run(cdf_initial(), xml_events(raw@)) == Ok::<Seq<GroupView>, Seq<char>>(groups_view(c.groups@)),
            Err(m) => cdf_run(cdf_initial(), xml_events(raw@)) == Err::<Seq<GroupView>, Seq<char>>(m@),
        },
{
    let mut reader = xml_reader(raw);
    let mut st = CdfReader::new();
    loop
        invariant
            well_ended(reader_events(reader)),
            cdf_run(cdf_reader_view(st), reader_events(reader)) == cdf_run(cdf_initial(), xml_events(raw@)),
        decreases reader_events(reader).len(),
    {
        let ghost rest = reader_events(reader);
        let ev = next_event(&mut reader);
        match ev {
            XmlEvent::Eof => {
                return Ok(CombinedDecisions { groups: st.groups });
            },
            XmlEvent::Error(m) => {
                return Err(m);
            },
            _ => {
                assert(!is_terminal(rest[0]));
                assert(rest.len() > 1);
                st.step(&ev);
                assert(well_ended(reader_events(reader))) by {
                    let r2 = reader_events(reader);
                    assert forall|i: int| 0 <= i < r2.len() - 1 implies !is_terminal(#[trigger] r2[i]) by {
                        assert(r2[i] == rest[i + 1]);
                    }
                }
            },
        }
    }
}

/// The last decision (over all groups, in order) named `id`.
pub open spec fn last_in(ds: Seq<DecisionView>, id: Seq<char>) -> Option<DecisionView>
    decreases ds.len(),
{
    if ds.len() == 0 {
        None
    } else if ds.last().0 == id {
        Some(ds.last())
    } else {
        last_in(ds.drop_last(), id)
    }
}

pub open spec fn last_decision(gs: Seq<GroupView>, id: Seq<char>) -> Option<DecisionView>
    decreases gs.len(),
{
    if gs.len() == 0 {
        None
    } else {
        match last_in(gs.last().1, id) {
            Some(d) => Some(d),
            None => last_decision(gs.drop_last(), id),
        }
    }
}

/// For each identifier in order, the last decision of that name; unknown names are skipped.
pub open spec fn selected(gs: Seq<GroupView>, ids: Seq<Seq<char>>) -> Seq<DecisionView>
    decreases ids.len(),
{
    if ids.len() == 0 {
        Seq::empty()
    } else {
        let rest = selected(gs, ids.drop_last());
        match last_decision(gs, ids.last()) {
            Some(d) => rest.push(d),
            None => rest,
        }
    }
}

fn find_decision<'a>(cdf: &'a CombinedDecisions, id: &str) -> (r: Option<&'a CdfDecision>)
    ensures
        match r {
            Some(d) => last_decision(groups_view(cdf.groups@), id@) == Some(decision_view(*d)),
            None => last_decision(groups_view(cdf.groups@), id@) is None,
        },
{
    let ghost gs = groups_view(cdf.groups@);
    let mut gi = cdf.groups.len();
    assert(gs.take(gi as int) =~= gs);
    while gi > 0
        invariant
            gs == groups_view(cdf.groups@),
            gi <= cdf.groups@.len(),
            last_decision(gs, id@) == last_decision(gs.take(gi as int), id@),
        decreases gi,
    {
        let g = &cdf.groups[gi - 1];
        let ghost ds = group_view(*g).1;
        assert(gs.take(gi as int).drop_last() =~= gs.take(gi - 1));
        assert(gs.take(gi as int).last() == group_view(*g));
        let mut di = g.decisions.len();
        assert(ds.take(di as int) =~= ds);
        while di > 0
            invariant
                gs == groups_view(cdf.groups@),
                0 < gi <= cdf.groups@.len(),
                last_decision(gs, id@) == last_decision(gs.take(gi as int), id@),
                gs.take(gi as int).last() == group_view(*g),
                ds == group_view(*g).1,
                di <= g.decisions@.len(),
                last_in(ds, id@) == last_in(ds.take(di as int), id@),
            decreases di,
        {
            let d = &g.decisions[di - 1];
            assert(ds.take(di as int).drop_last() =~= ds.take(di - 1));
            assert(ds.take(di as int).last() == decision_view(*d));
            if str_eq(d.id.as_str(), id) {
                return Some(d);
            }
            di = di - 1;
        }
        assert(ds.take(0) =~= Seq::<DecisionView>::empty());
        gi = gi - 1;
    }
    assert(gs.take(0) =~= Seq::<GroupView>::empty());
    None
}

pub open spec fn strs_view(v: Seq<&str>) -> Seq<Seq<char>> {
    v.map_values(|s: &str| s@)
}

pub open spec fn decision_refs_view(v: Seq<&CdfDecision>) -> Seq<DecisionView> {
    v.map_values(|d: &CdfDecision| decision_view(*d))
}

/// For each identifier of `ids` in order, the last decision of that name in `cdf`;
/// identifiers that name no decision are skipped.
pub fn select_decisions_by_id<'a>(cdf: &'a CombinedDecisions, ids: &Vec<&str>) -> (r: Vec<&'a CdfDecision>)
    ensures
        decision_refs_view(r@) == selected(groups_view(cdf.groups@), strs_view(ids@)),
{
    let mut out: Vec<&'a CdfDecision> = Vec::new();
    let mut i: usize = 0;
    while i < ids.len()
        invariant
            i <= ids@.len(),
            decision_refs_view(out@) == selected(groups_view(cdf.groups@), strs_view(ids@).take(i as int)),
        decreases ids@.len() - i,
    {
        let ghost before = out@;
        assert(strs_view(ids@).take(i + 1).drop_last() =~= strs_view(ids@).take(i as int));
        assert(strs_view(ids@).take(i + 1).last() == ids@[i as int]@);
        match find_decision(cdf, ids[i]) {
            Some(d) => {
                out.push(d);
                assert(decision_refs_view(out@) =~= decision_refs_view(before).push(decision_view(*d)));
            },
            None => {},
        }
        i = i + 1;
    }
    assert(strs_view(ids@).take(ids@.len() as int) =~= strs_view(ids@));
    out
}

/// How a decision left the ratio bound of a compressor station.
#[derive(Debug, Clone, Copy, PartialEq, Eq, Structural)]
pub enum RatioBound {
    /// As it was.
    Unchanged,
    /// The station's nominal ratio.
    Nominal,
    /// A ratio of one: the station bypassed.
    One,
}

/// What applying decisions reads and sets on one connection of the network.
#[derive(Debug, PartialEq, Eq)]
pub struct DecisionTarget<S> {
    pub id: S,
    pub is_open: bool,
    /// The control-valve opening a decision set: `Some(true)` is fully open (100 %),
    /// `Some(false)` shut (0 %); `None` leaves it as it was.
    pub opening_full: Option<bool>,
    pub ratio_max: RatioBound,
    /// Whether the equipment has a nominal compression ratio.
    pub has_nominal_ratio: bool,
    /// Whether an idle station must be bypassed rather than closed.
    pub internal_bypass_required: bool,
}

pub open spec fn target_view(t: DecisionTarget<String>) -> DecisionTarget<Seq<char>> {
    DecisionTarget {
        id: t.id@,
        is_open: t.is_open,
        opening_full: t.opening_full,
        ratio_max: t.ratio_max,
        has_nominal_ratio: t.has_nominal_ratio,
        internal_bypass_required: t.internal_bypass_required,
    }
}

pub open spec fn targets_view(v: Seq<DecisionTarget<String>>) -> Seq<DecisionTarget<Seq<char>>> {
    v.map_values(|t: DecisionTarget<String>| target_view(t))
}

/// The state one element sets on its connection.
pub open spec fn element_effect(t: DecisionTarget<Seq<char>>, kind: CdfElementKind, active: bool) -> DecisionTarget<Seq<char>> {
    match kind {
        CdfElementKind::Valve => DecisionTarget { is_open: active, ..t },
        CdfElementKind::ControlValve => DecisionTarget { is_open: active, opening_full: Some(active), ..t },
        CdfElementKind::CompressorStation => if active {
            DecisionTarget {
                is_open: true,
                ratio_max: if t.has_nominal_ratio { RatioBound::Nominal } else { t.ratio_max },
                ..t
            }
        } else if t.internal_bypass_required {
            DecisionTarget { is_open: true, ratio_max: RatioBound::One, ..t }
        } else {
            DecisionTarget { is_open: false, ..t }
        },
    }
}

/// Position of the first connection named `id`.
pub open spec fn first_target(ts: Seq<DecisionTarget<Seq<char>>>, id: Seq<char>) -> Option<int> {
    if exists|k: int| 0 <= k < ts.len() && ts[k].id == id {
        Some(choose|k: int| 0 <= k < ts.len() && ts[k].id == id && forall|j: int| 0 <= j < k ==> ts[j].id != id)
    } else {
        None
    }
}

/// The connections after applying one element: the first connection of its name takes
/// its state; with none of that name nothing changes.
pub open spec fn apply_element(ts: Seq<DecisionTarget<Seq<char>>>, e: ElementView) -> Seq<DecisionTarget<Seq<char>>> {
    match first_target(ts, e.0) {
        Some(k) => ts.update(k, element_effect(ts[k], e.1, e.2)),
        None => ts,
    }
}

pub open spec fn apply_elements(ts: Seq<DecisionTarget<Seq<char>>>, es: Seq<ElementView>) -> Seq<DecisionTarget<Seq<char>>>
    decreases es.len(),
{
    if es.len() == 0 {
        ts
    } else {
        apply_element(apply_elements(ts, es.drop_last()), es.last())
    }
}

pub open spec fn apply_decisions(ts: Seq<DecisionTarget<Seq<char>>>, ds: Seq<DecisionView>) -> Seq<DecisionTarget<Seq<char>>>
    decreases ds.len(),
{
    if ds.len() == 0 {
        ts
    } else {
        apply_elements(apply_decisions(ts, ds.drop_last()), ds.last().1)
    }
}

proof fn lemma_first_target(ts: Seq<DecisionTarget<Seq<char>>>, id: Seq<char>, k: int)
    requires
        0 <= k <= ts.len(),
        forall|j: int| 0 <= j < k ==> #[trigger] ts[j].id != id,
        k == ts.len() || ts[k].id == id,
    ensures
        first_target(ts, id) == (if k < ts.len() { Some(k) } else { None::<int> }),
{
    if k < ts.len() {
        let c = choose|c: int| 0 <= c < ts.len() && ts[c].id == id && forall|j: int| 0 <= j < c ==> ts[j].id != id;
        assert(ts[k].id == id);
        if c < k {
            assert(ts[c].id != id);
        } else if k < c {
            assert(ts[k].id != id);
        }
    } else {
        if exists|c: int| 0 <= c < ts.len() && ts[c].id == id {
            let c = choose|c: int| 0 <= c < ts.len() && ts[c].id == id;
            assert(ts[c].id != id);
        }
    }
}

/// Sets the state of one element on the first connection of its name.
pub fn apply_element_state(targets: &mut Vec<DecisionTarget<String>>, element: &CdfElementState)
    ensures
        targets_view(final(targets)@) == apply_element(targets_view(old(targets)@), element_view(*element)),
{
    let ghost ts = targets_view(targets@);
    let mut k: usize = 0;
    while k < targets.len() && !str_eq(targets[k].id.as_str(), element.id.as_str())
        invariant
            ts == targets_view(targets@),
            k <= targets@.len(),
            forall|j: int| 0 <= j < k ==> #[trigger] ts[j].id != element.id@,
        decreases targets@.len() - k,
    {
        k = k + 1;
    }
    proof {
        lemma_first_target(ts, element.id@, k as int);
    }
    if k == targets.len() {
        return;
    }
    let is_open = targets[k].is_open;
    let opening_full = targets[k].opening_full;
    let ratio_max = targets[k].ratio_max;
    let has_nominal = targets[k].has_nominal_ratio;
    let bypass = targets[k].internal_bypass_required;
    let (open2, opening2, ratio2) = match element.kind {
        CdfElementKind::Valve => (element.active, opening_full, ratio_max),
        CdfElementKind::ControlValve => (element.active, Some(element.active), ratio_max),
        CdfElementKind::CompressorStation => if element.active {
            (true, opening_full, if has_nominal { RatioBound::Nominal } else { ratio_max })
        } else if bypass {
            (true, opening_full, RatioBound::One)
        } else {
            (false, opening_full, ratio_max)
        },
    };
    let ghost old_t = targets@[k as int];
    let mut t = targets.remove(k);
    t.is_open = open2;
    t.opening_full = opening2;
    t.ratio_max = ratio2;
    targets.insert(k, t);
    proof {
        assert(target_view(t) == element_effect(ts[k as int], element.kind, element.active));
        assert(targets_view(targets@) =~= ts.update(k as int, target_view(t)));
    }
}

/// Applies the elements of each decision in turn.
pub fn apply_cdf_decisions(targets: &mut Vec<DecisionTarget<String>>, decisions: &Vec<&CdfDecision>)
    ensures
        targets_view(final(targets)@) == apply_decisions(targets_view(old(targets)@), decision_refs_view(decisions@)),
{
    let ghost start = targets_view(targets@);
    let mut i: usize = 0;
    while i < decisions.len()
        invariant
            i <= decisions@.len(),
            targets_view(targets@) == apply_decisions(start, decision_refs_view(decisions@).take(i as int)),
        decreases decisions@.len() - i,
    {
        let d = decisions[i];
        let ghost es = decision_view(*d).1;
        let ghost base = targets_view(targets@);
        let mut j: usize = 0;
        while j < d.elements.len()
            invariant
                es == decision_view(*d).1,
                j <= d.elements@.len(),
                targets_view(targets@) == apply_elements(base, es.take(j as int)),
            decreases d.elements@.len() - j,
        {
            assert(es.take(j + 1).drop_last() =~= es.take(j as int));
            assert(es.take(j + 1).last() == element_view(d.elements@[j as int]));
            apply_element_state(targets, &d.elements[j]);
            j = j + 1;
        }
        assert(es.take(d.elements@.len() as int) =~= es);
        let ghost dv = decision_refs_view(decisions@);
        assert(dv.take(i + 1).drop_last() =~= dv.take(i as int));
        assert(dv.take(i + 1).last() == decision_view(*d));
        i = i + 1;
    }
    assert(decision_refs_view(decisions@).take(decisions@.len() as int) =~= decision_refs_view(decisions@));
}

/// Applies the decisions of `cdf` named by `ids` (see `select_decisions_by_id`).
pub fn apply_cdf_decision_ids(cdf: &CombinedDecisions, targets: &mut Vec<DecisionTarget<String>>, ids: &Vec<&str>)
    ensures
        targets_view(final(targets)@) == apply_decisions(
            targets_view(old(targets)@),
            selected(groups_view(cdf.groups@), strs_view(ids@)),
        ),
{
    let selected = select_decisions_by_id(cdf, ids);
    apply_cdf_decisions(targets, &selected);
}

/// `k` is the position of the first connection named `id`.
pub open spec fn is_first_target(ts: Seq<DecisionTarget<Seq<char>>>, id: Seq<char>, k: int) -> bool {
    &&& 0 <= k < ts.len()
    &&& ts[k].id == id
    &&& forall|j: int| 0 <= j < k ==> (#[trigger] ts[j]).id != id
}

/// What one element of a decision does: with no connection of its name nothing changes;
/// else only the first connection of that name changes, and only in its state. A valve is
/// opened or closed as the element is active or not; a control valve likewise, and its
/// opening is set to full (100 %) when active and to shut (0 %) when not; an active
/// compressor station is opened at its nominal ratio where it has one, an inactive one is
/// bypassed (open at a ratio of one) where it must be, else closed.
pub proof fn lemma_element_state_effect(ts: Seq<DecisionTarget<Seq<char>>>, e: ElementView)
    ensures
        (forall|j: int| 0 <= j < ts.len() ==> (#[trigger] ts[j]).id != e.0) ==> apply_element(ts, e) == ts,
        forall|k: int| #[trigger] is_first_target(ts, e.0, k) ==> {
            let r = apply_element(ts, e);
            let t = ts[k];
            &&& r.len() == ts.len()
            &&& forall|i: int| 0 <= i < ts.len() && i != k ==> #[trigger] r[i] == ts[i]
            &&& r[k].id == t.id
            &&& r[k].has_nominal_ratio == t.has_nominal_ratio
            &&& r[k].internal_bypass_required == t.internal_bypass_required
            &&& e.1 == CdfElementKind::Valve ==> r[k].is_open == e.2 && r[k].opening_full == t.opening_full
                && r[k].ratio_max == t.ratio_max
            &&& e.1 == CdfElementKind::ControlValve ==> r[k].is_open == e.2 && r[k].opening_full == Some(e.2)
                && r[k].ratio_max == t.ratio_max
            &&& e.1 == CdfElementKind::CompressorStation ==> r[k].opening_full == t.opening_full && (if e.2 {
                r[k].is_open && r[k].ratio_max == (if t.has_nominal_ratio {
                    RatioBound::Nominal
                } else {
                    t.ratio_max
                })
            } else if t.internal_bypass_required {
                r[k].is_open && r[k].ratio_max == RatioBound::One
            } else {
                !r[k].is_open && r[k].ratio_max == t.ratio_max
            })
        },
{
    if forall|j: int| 0 <= j < ts.len() ==> (#[trigger] ts[j]).id != e.0 {
        lemma_first_target(ts, e.0, ts.len() as int);
    }
    assert forall|k: int| #[trigger] is_first_target(ts, e.0, k) implies apply_element(ts, e) == ts.update(
        k,
        element_effect(ts[k], e.1, e.2),
    ) by {
        assert forall|j: int| 0 <= j < k implies #[trigger] ts[j].id != e.0 by {
            assert(ts[j].id != e.0);
        }
        lemma_first_target(ts, e.0, k);
    }
}

} // verus!
