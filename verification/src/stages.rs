//! The number of serial compressor stages of each station of a GasLib `.cs` document.

use vstd::prelude::*;

use crate::decimal::{parse_usize, spec_parse_usize};
use crate::text::{ascii_lower, chars_of, eq_lit, str_eq};
use crate::xml::{
    attrs_view, is_terminal, local_name, next_event, read_attr, reader_events,
    spec_attr, spec_local_name, well_ended, xml_events, xml_reader, AttrView, XmlEvent,
    XmlEventView, XmlTag,
};

verus! {

pub type StageEntry = (Seq<char>, nat);

/// Whether no two entries share a station.
pub open spec fn distinct_stations(v: Seq<StageEntry>) -> bool {
    forall|i: int, j: int| 0 <= i < j < v.len() ==> v[i].0 != v[j].0
}

/// The entries with one for `id`: unchanged if present, else `(id, 1)` added at the end.
pub open spec fn with_entry(v: Seq<StageEntry>, id: Seq<char>) -> Seq<StageEntry> {
    if exists|k: int| 0 <= k < v.len() && v[k].0 == id {
        v
    } else {
        v.push((id, 1))
    }
}

pub open spec fn entry_at(v: Seq<StageEntry>, id: Seq<char>) -> int {
    choose|k: int| 0 <= k < v.len() && v[k].0 == id
}

/// The entries after a configuration of `n` serial stages of station `id`: its count
/// becomes the larger of itself and `n` (a zero counting as one).
pub open spec fn raise_entry(v: Seq<StageEntry>, id: Seq<char>, n: nat) -> Seq<StageEntry> {
    let w = with_entry(v, id);
    let k = entry_at(w, id);
    let m: nat = if n < 1 { 1 } else { n };
    w.update(k, (id, if w[k].1 >= m { w[k].1 } else { m }))
}

pub type StagesState = (Seq<StageEntry>, Option<Seq<char>>);

pub open spec fn stages_open(st: StagesState, qname: Seq<char>, attrs: Seq<AttrView>, empty: bool) -> StagesState {
    let n = spec_local_name(qname);
    if n == "compressorstation"@ {
        match spec_attr(attrs, "id"@) {
            Some(id) => (with_entry(st.0, id), if empty { st.1 } else { Some(id) }),
            None => st,
        }
    } else if n == "configuration"@ {
        match (st.1, spec_attr(attrs, "nrofserialstages"@)) {
            (Some(sid), Some(raw)) => match spec_parse_usize(raw) {
                Some(k) => (raise_entry(st.0, sid, k), st.1),
                None => st,
            },
            _ => st,
        }
    } else {
        st
    }
}

pub open spec fn stages_step(st: StagesState, e: XmlEventView) -> StagesState {
    match e {
        XmlEventView::Start(n, a) => stages_open(st, n, a, false),
        XmlEventView::Empty(n, a) => stages_open(st, n, a, true),
        XmlEventView::End(n) => if spec_local_name(n) == "compressorstation"@ {
            (st.0, None)
        } else {
            st
        },
        _ => st,
    }
}

pub open spec fn stages_run(st: StagesState, events: Seq<XmlEventView>) -> Result<Seq<StageEntry>, Seq<char>>
    decreases events.len(),
{
    if events.len() == 0 {
        Ok(st.0)
    } else {
        match events[0] {
            XmlEventView::Eof => Ok(st.0),
            XmlEventView::Error(m) => Err(m),
            e => stages_run(stages_step(st, e), events.drop_first()),
        }
    }
}

pub open spec fn entries_view(v: Seq<(String, usize)>) -> Seq<StageEntry> {
    v.map_values(|e: (String, usize)| (e.0@, e.1 as nat))
}

/// Position of the entry of `id`, added with one stage if missing.
fn entry_index(v: &mut Vec<(String, usize)>, id: &String) -> (k: usize)
    requires
        distinct_stations(entries_view(old(v)@)),
    ensures
        entries_view(final(v)@) == with_entry(entries_view(old(v)@), id@),
        distinct_stations(entries_view(final(v)@)),
        k < final(v)@.len(),
        k == entry_at(entries_view(final(v)@), id@),
        entries_view(final(v)@)[k as int].0 == id@,
{
    let ghost ev = entries_view(v@);
    let mut k: usize = 0;
    while k < v.len() && !str_eq(v[k].0.as_str(), id.as_str())
        invariant
            ev == entries_view(v@),
            k <= v@.len(),
            forall|j: int| 0 <= j < k ==> #[trigger] ev[j].0 != id@,
        decreases v@.len() - k,
    {
        k = k + 1;
    }
    if k == v.len() {
        assert(!exists|j: int| 0 <= j < ev.len() && ev[j].0 == id@);
        v.push((id.clone(), 1));
        assert(entries_view(v@) =~= ev.push((id@, 1nat)));
    }
    proof {
        let nv = entries_view(v@);
        assert(nv[k as int].0 == id@);
        let c = entry_at(nv, id@);
        if c != k {
            if c < k {
                assert(nv[c].0 != nv[k as int].0);
            } else {
                assert(nv[k as int].0 != nv[c].0);
            }
        }
    }
    k
}

fn stages_open_exec(entries: &mut Vec<(String, usize)>, station: &mut Option<String>, tag: &XmlTag, empty: bool)
    requires
        distinct_stations(entries_view(old(entries)@)),
    ensures
        (entries_view(final(entries)@), match *final(station) { Some(s) => Some(s@), None => None })
            == stages_open((entries_view(old(entries)@), match *old(station) { Some(s) => Some(s@), None => None }),
                tag.name@, attrs_view(*tag), empty),
        distinct_stations(entries_view(final(entries)@)),
{
    proof {
        reveal_strlit("id");
        reveal_strlit("nrOfSerialStages");
        reveal_strlit("nrofserialstages");
        assert(ascii_lower("id"@) =~= "id"@);
        assert(ascii_lower("nrOfSerialStages"@) =~= "nrofserialstages"@);
    }
    let name = local_name(tag.name.as_str());
    let n = chars_of(name.as_str());
    if eq_lit(&n, "compressorstation") {
        match read_attr(tag, "id") {
            Some(id) => {
                let _ = entry_index(entries, &id);
                if !empty {
                    *station = Some(id);
                }
            },
            None => {},
        }
    } else if eq_lit(&n, "configuration") {
        let sid = match station {
            Some(s) => s.clone(),
            None => return,
        };
        match read_attr(tag, "nrOfSerialStages") {
            Some(raw) => {
                let rv = chars_of(raw.as_str());
                match parse_usize(&rv) {
                    Some(k) => {
                        let i = entry_index(entries, &sid);
                        let ghost w = entries_view(entries@);
                        let m: usize = if k < 1 { 1 } else { k };
                        let cur = entries[i].1;
                        let (id, _) = entries.remove(i);
                        entries.insert(i, (id, if cur >= m { cur } else { m }));
                        proof {
                            let nv = entries_view(entries@);
                            assert(nv =~= w.update(i as int, (sid@, (if cur >= m { cur } else { m }) as nat)));
                            assert forall|a: int, b: int| 0 <= a < b < nv.len() implies nv[a].0 != nv[b].0 by {
                                assert(w[a].0 != w[b].0);
                            }
                        }
                    },
                    None => {},
                }
            },
            None => {},
        }
    }
}

/// For each station of the `.cs` document `raw` (in the order first met, each once), the
/// largest number of serial stages among its configurations, at least one. A
/// `configuration` counts for the `compressorStation` start tag it stands in; names are
/// compared by local name, ignoring ASCII case. An XML error ends the reading.
pub fn parse_station_stages_from_str(raw: &str) -> (r: Result<Vec<(String, usize)>, String>)
    ensures
        match r {
            Ok(v) => stages_run((Seq::empty(), None), xml_events(raw@)) == Ok::<Seq<StageEntry>, Seq<char>>(entries_view(v@))
                && distinct_stations(entries_view(v@)),
            Err(m) => stages_run((Seq::empty(), None), xml_events(raw@)) == Err::<Seq<StageEntry>, Seq<char>>(m@),
        },
{
    let mut reader = xml_reader(raw);
    let mut entries: Vec<(String, usize)> = Vec::new();
    let mut station: Option<String> = None;
    assert(entries_view(entries@) =~= Seq::<StageEntry>::empty());
    loop
        invariant
            well_ended(reader_events(reader)),
            distinct_stations(entries_view(entries@)),
            stages_run((entries_view(entries@), match station { Some(s) => Some(s@), None => None }), reader_events(reader))
                == stages_run((Seq::empty(), None), xml_events(raw@)),
        decreases reader_events(reader).len(),
    {
        let ghost rest = reader_events(reader);
        let ev = next_event(&mut reader);
        match ev {
            XmlEvent::Eof => {
                return Ok(entries);
            },
            XmlEvent::Error(m) => {
                return Err(m);
            },
            _ => {
                assert(!is_terminal(rest[0]));
                assert(rest.len() > 1);
                match &ev {
                    XmlEvent::Start(t) => stages_open_exec(&mut entries, &mut station, t, false),
                    XmlEvent::Empty(t) => stages_open_exec(&mut entries, &mut station, t, true),
                    XmlEvent::End(n) => {
                        let name = local_name(n.as_str());
                        let nv = chars_of(name.as_str());
                        if eq_lit(&nv, "compressorstation") {
                            station = None;
                        }
                    },
                    _ => {},
                }
                assert(well_ended(reader_events(reader))) by {
                    let r2 = reader_events(reader);
                    assert forall|i: int| 0 <= i < r2.len() - 1 implies !is_terminal(#[trigger] r2[i]) by {
                        assert(r2[i] == rest[i + 1]);
                    }
                }
            },
        }
    }
}

} // verus!
