//! GasLib network files (`.net`): the nodes and connections they declare, read from the
//! XML event stream, with their numbers kept as the decimal literals written.
//!
//! The layout follows the schema the tools read: a root element holding one `nodes`
//! element and one `connections` element (each possibly prefixed `framework:`). Every
//! element inside `nodes` is a node; every element inside `connections` is a `pipe`,
//! `valve`, `shortPipe`, `resistor`, `controlValve` or `compressorStation`. Attributes are
//! looked up by their local name, case-sensitively; elements by their full name. Anything
//! not part of the schema is passed over.

use vstd::prelude::*;

use crate::decimal::{float_literal_ok, is_float_literal};
use crate::labels::ConnectionKind;
use crate::magnitude::{is_negligible_literal, negligible_literal};
use crate::stages::StageEntry;
use crate::text::{append, chars_of, str_eq};
use crate::xml::{
    attrs_view, event_view, next_event, reader_events, unescape_value, well_ended, xml_events,
    xml_reader, xml_unescaped, AttrView, XmlEvent, XmlEventView, XmlTag,
};

verus! {

/// The fields of the schema, as attribute names or child element names.
#[derive(Debug, Clone, Copy, PartialEq, Eq, Structural)]
pub enum NetField {
    Id,
    X,
    Y,
    GeoLong,
    GeoLat,
    Height,
    From,
    To,
    Length,
    Diameter,
    Roughness,
    DragFactor,
    Value,
    Unit,
    Lower,
    Upper,
    Pressure,
    PressureMin,
    PressureMax,
    FlowMin,
    FlowMax,
    Nodes,
    Connections,
}

/// The name a field is written under.
pub open spec fn field_key(f: NetField) -> Seq<char> {
    match f {
        NetField::Id => "id"@,
        NetField::X => "x"@,
        NetField::Y => "y"@,
        NetField::GeoLong => "geoWGS84Long"@,
        NetField::GeoLat => "geoWGS84Lat"@,
        NetField::Height => "height"@,
        NetField::From => "from"@,
        NetField::To => "to"@,
        NetField::Length => "length"@,
        NetField::Diameter => "diameter"@,
        NetField::Roughness => "roughness"@,
        NetField::DragFactor => "dragFactor"@,
        NetField::Value => "value"@,
        NetField::Unit => "unit"@,
        NetField::Lower => "lower"@,
        NetField::Upper => "upper"@,
        NetField::Pressure => "pressure"@,
        NetField::PressureMin => "pressureMin"@,
        NetField::PressureMax => "pressureMax"@,
        NetField::FlowMin => "flowMin"@,
        NetField::FlowMax => "flowMax"@,
        NetField::Nodes => "nodes"@,
        NetField::Connections => "connections"@,
    }
}

fn field_key_str(f: NetField) -> (r: &'static str)
    ensures
        r@ == field_key(f),
{
    match f {
        NetField::Id => "id",
        NetField::X => "x",
        NetField::Y => "y",
        NetField::GeoLong => "geoWGS84Long",
        NetField::GeoLat => "geoWGS84Lat",
        NetField::Height => "height",
        NetField::From => "from",
        NetField::To => "to",
        NetField::Length => "length",
        NetField::Diameter => "diameter",
        NetField::Roughness => "roughness",
        NetField::DragFactor => "dragFactor",
        NetField::Value => "value",
        NetField::Unit => "unit",
        NetField::Lower => "lower",
        NetField::Upper => "upper",
        NetField::Pressure => "pressure",
        NetField::PressureMin => "pressureMin",
        NetField::PressureMax => "pressureMax",
        NetField::FlowMin => "flowMin",
        NetField::FlowMax => "flowMax",
        NetField::Nodes => "nodes",
        NetField::Connections => "connections",
    }
}

/// Why a network file could not be read.
#[derive(Debug, Clone, PartialEq, Eq)]
pub enum NetFileError {
    /// The XML reader reported an error.
    Xml(String),
    /// The document ended inside its root element.
    UnexpectedEnd,
    /// Elements nest deeper than can be counted.
    TooDeep,
    /// A tag holds an attribute the reader could not make out, or one whose value does
    /// not unescape.
    BadAttribute,
    /// A field is given twice.
    Duplicate(NetField),
    /// A required field is absent.
    Missing(NetField),
    /// A number field is not a literal that `f64::from_str` accepts.
    InvalidNumber(NetField),
    /// An element inside `connections` that is no known connection.
    UnknownConnection(String),
}

pub enum NetFileErrorView {
    Xml(Seq<char>),
    UnexpectedEnd,
    TooDeep,
    BadAttribute,
    Duplicate(NetField),
    Missing(NetField),
    InvalidNumber(NetField),
    UnknownConnection(Seq<char>),
}

pub open spec fn error_view(e: NetFileError) -> NetFileErrorView {
    match e {
        NetFileError::Xml(m) => NetFileErrorView::Xml(m@),
        NetFileError::UnexpectedEnd => NetFileErrorView::UnexpectedEnd,
        NetFileError::TooDeep => NetFileErrorView::TooDeep,
        NetFileError::BadAttribute => NetFileErrorView::BadAttribute,
        NetFileError::Duplicate(f) => NetFileErrorView::Duplicate(f),
        NetFileError::Missing(f) => NetFileErrorView::Missing(f),
        NetFileError::InvalidNumber(f) => NetFileErrorView::InvalidNumber(f),
        NetFileError::UnknownConnection(n) => NetFileErrorView::UnknownConnection(n@),
    }
}

/// The text of an error.
pub open spec fn error_message(e: NetFileErrorView) -> Seq<char> {
    "parsing XML GasLib: "@ + match e {
        NetFileErrorView::Xml(m) => m,
        NetFileErrorView::UnexpectedEnd => "unexpected end of document"@,
        NetFileErrorView::TooDeep => "elements nested too deeply"@,
        NetFileErrorView::BadAttribute => "unreadable attribute"@,
        NetFileErrorView::Duplicate(f) => "duplicate field `"@ + field_key(f) + "`"@,
        NetFileErrorView::Missing(f) => "missing field `"@ + field_key(f) + "`"@,
        NetFileErrorView::InvalidNumber(f) => "invalid number in `"@ + field_key(f) + "`"@,
        NetFileErrorView::UnknownConnection(n) => "unknown connection element `"@ + n + "`"@,
    }
}

impl NetFileError {
    /// The text of the error (see `error_message`).
    pub fn message(&self) -> (m: String)
        ensures
            m@ == error_message(error_view(*self)),
    {
        let mut m = String::new();
        append(&mut m, "parsing XML GasLib: ");
        match self {
            NetFileError::Xml(x) => append(&mut m, x.as_str()),
            NetFileError::UnexpectedEnd => append(&mut m, "unexpected end of document"),
            NetFileError::TooDeep => append(&mut m, "elements nested too deeply"),
            NetFileError::BadAttribute => append(&mut m, "unreadable attribute"),
            NetFileError::Duplicate(f) => {
                append(&mut m, "duplicate field `");
                append(&mut m, field_key_str(*f));
                append(&mut m, "`");
            },
            NetFileError::Missing(f) => {
                append(&mut m, "missing field `");
                append(&mut m, field_key_str(*f));
                append(&mut m, "`");
            },
            NetFileError::InvalidNumber(f) => {
                append(&mut m, "invalid number in `");
                append(&mut m, field_key_str(*f));
                append(&mut m, "`");
            },
            NetFileError::UnknownConnection(n) => {
                append(&mut m, "unknown connection element `");
                append(&mut m, n.as_str());
                append(&mut m, "`");
            },
        }
        proof {
            assert(m@ =~= error_message(error_view(*self)));
        }
        m
    }
}

// ---------------------------------------------------------------------------
// Attributes
// ---------------------------------------------------------------------------

/// Position of the first `:` of `q`, or its length.
pub open spec fn first_colon(q: Seq<char>) -> nat
    decreases q.len(),
{
    if q.len() == 0 {
        0
    } else if q[0] == ':' {
        0
    } else {
        1 + first_colon(q.drop_first())
    }
}

/// The name an attribute is looked up by: a namespace binding (`xmlns`, `xmlns:..`) keeps
/// its full name, any other attribute its part after the first `:`.
pub open spec fn attr_key(q: Seq<char>) -> Seq<char> {
    if q == "xmlns"@ || (q.len() >= 6 && q.take(6) == "xmlns:"@) {
        q
    } else if first_colon(q) < q.len() {
        q.skip(first_colon(q) as int + 1)
    } else {
        q
    }
}

pub open spec fn key_is(a: AttrView, key: Seq<char>) -> bool {
    match a {
        Some((k, _)) => attr_key(k) == key,
        None => false,
    }
}

/// The raw values of the attributes looked up as `key`, in order.
pub open spec fn key_values(attrs: Seq<AttrView>, key: Seq<char>) -> Seq<Seq<char>>
    decreases attrs.len(),
{
    if attrs.len() == 0 {
        Seq::empty()
    } else {
        let r = key_values(attrs.drop_last(), key);
        if key_is(attrs.last(), key) {
            r.push(attrs.last().unwrap().1)
        } else {
            r
        }
    }
}

/// Every attribute of the tag could be made out.
pub open spec fn attrs_readable(attrs: Seq<AttrView>) -> bool {
    forall|i: int| 0 <= i < attrs.len() ==> (#[trigger] attrs[i]) is Some
}

/// The unescaped text of the attribute for field `f`: absent, given once, or an error
/// when given twice or when its value does not unescape.
pub open spec fn text_attr(attrs: Seq<AttrView>, f: NetField) -> Result<Option<Seq<char>>, NetFileErrorView> {
    let m = key_values(attrs, field_key(f));
    if m.len() >= 2 {
        Err(NetFileErrorView::Duplicate(f))
    } else if m.len() == 0 {
        Ok(None)
    } else {
        match xml_unescaped(m[0]) {
            Some(t) => Ok(Some(t)),
            None => Err(NetFileErrorView::BadAttribute),
        }
    }
}

/// A required text attribute.
pub open spec fn required_text(attrs: Seq<AttrView>, f: NetField) -> Result<Seq<char>, NetFileErrorView> {
    match text_attr(attrs, f) {
        Err(e) => Err(e),
        Ok(None) => Err(NetFileErrorView::Missing(f)),
        Ok(Some(t)) => Ok(t),
    }
}

/// An optional text attribute; an empty value counts as absent.
pub open spec fn optional_text(attrs: Seq<AttrView>, f: NetField) -> Result<Option<Seq<char>>, NetFileErrorView> {
    match text_attr(attrs, f) {
        Err(e) => Err(e),
        Ok(None) => Ok(None),
        Ok(Some(t)) => if t.len() == 0 { Ok(None) } else { Ok(Some(t)) },
    }
}

/// A required number attribute: its literal, which `f64::from_str` must accept.
pub open spec fn required_number(attrs: Seq<AttrView>, f: NetField) -> Result<Seq<char>, NetFileErrorView> {
    match required_text(attrs, f) {
        Err(e) => Err(e),
        Ok(t) => if is_float_literal(t) { Ok(t) } else { Err(NetFileErrorView::InvalidNumber(f)) },
    }
}

/// An optional number attribute; an empty value counts as absent.
pub open spec fn optional_number(attrs: Seq<AttrView>, f: NetField) -> Result<Option<Seq<char>>, NetFileErrorView> {
    match optional_text(attrs, f) {
        Err(e) => Err(e),
        Ok(None) => Ok(None),
        Ok(Some(t)) => if is_float_literal(t) { Ok(Some(t)) } else { Err(NetFileErrorView::InvalidNumber(f)) },
    }
}

proof fn lemma_first_colon(q: Seq<char>, k: int)
    requires
        0 <= k <= q.len(),
        forall|j: int| 0 <= j < k ==> #[trigger] q[j] != ':',
        k == q.len() || q[k] == ':',
    ensures
        first_colon(q) == k,
    decreases k,
{
    if k > 0 {
        let t = q.drop_first();
        assert forall|j: int| 0 <= j < k - 1 implies #[trigger] t[j] != ':' by {
            assert(t[j] == q[j + 1]);
        }
        assert(q[0] != ':');
        lemma_first_colon(t, k - 1);
    }
}

/// The lookup name of the attribute name `q` (see `attr_key`).
fn attr_key_of(q: &str) -> (r: Vec<char>)
    ensures
        r@ == attr_key(q@),
{
    let c = chars_of(q);
    let n = c.len();
    let mut binding = n == 5 && c[0] == 'x' && c[1] == 'm' && c[2] == 'l' && c[3] == 'n' && c[4] == 's';
    if n >= 6 && c[0] == 'x' && c[1] == 'm' && c[2] == 'l' && c[3] == 'n' && c[4] == 's' && c[5] == ':' {
        binding = true;
    }
    proof {
        reveal_strlit("xmlns");
        reveal_strlit("xmlns:");
        if binding {
            if n == 5 {
                assert(c@ =~= "xmlns"@);
            } else {
                assert(c@.take(6) =~= "xmlns:"@);
            }
        } else {
            if c@ == "xmlns"@ {
                assert(c@[0] == 'x' && c@[1] == 'm' && c@[2] == 'l' && c@[3] == 'n' && c@[4] == 's');
            }
            if c@.len() >= 6 && c@.take(6) == "xmlns:"@ {
                let t = c@.take(6);
                assert(t[0] == c@[0] && t[1] == c@[1] && t[2] == c@[2] && t[3] == c@[3] && t[4] == c@[4] && t[5] == c@[5]);
                assert(t[0] == 'x' && t[1] == 'm' && t[2] == 'l' && t[3] == 'n' && t[4] == 's' && t[5] == ':');
                assert(c@[0] == 'x' && c@[1] == 'm' && c@[2] == 'l' && c@[3] == 'n' && c@[4] == 's' && c@[5] == ':');
            }
        }
    }
    if binding {
        return c;
    }
    let mut k: usize = 0;
    while k < n && c[k] != ':'
        invariant
            n == c@.len(),
            k <= n,
            forall|j: int| 0 <= j < k ==> #[trigger] c@[j] != ':',
        decreases n - k,
    {
        k = k + 1;
    }
    proof {
        lemma_first_colon(c@, k as int);
    }
    if k == n {
        return c;
    }
    let mut r: Vec<char> = Vec::new();
    let mut j: usize = k + 1;
    while j < n
        invariant
            n == c@.len(),
            k < n,
            k + 1 <= j <= n,
            r@ == c@.subrange(k + 1, j as int),
        decreases n - j,
    {
        r.push(c[j]);
        j = j + 1;
        assert(r@ =~= c@.subrange(k + 1, j as int));
    }
    assert(r@ =~= c@.skip(k + 1));
    r
}

/// Whether every attribute of `tag` could be made out.
fn all_attrs_readable(tag: &XmlTag) -> (r: bool)
    ensures
        r == attrs_readable(attrs_view(*tag)),
{
    let ghost av = attrs_view(*tag);
    let mut i: usize = 0;
    while i < tag.attrs.len()
        invariant
            av == attrs_view(*tag),
            i <= tag.attrs@.len(),
            forall|j: int| 0 <= j < i ==> (#[trigger] av[j]) is Some,
        decreases tag.attrs@.len() - i,
    {
        assert(av[i as int] == crate::xml::attr_view(tag.attrs@[i as int]));
        if tag.attrs[i].is_none() {
            assert(!(av[i as int] is Some));
            return false;
        }
        i = i + 1;
    }
    true
}

/// The raw values of the attributes of `tag` looked up as field `f`.
fn values_for(tag: &XmlTag, f: NetField) -> (r: Vec<String>)
    ensures
        r@.map_values(|s: String| s@) == key_values(attrs_view(*tag), field_key(f)),
{
    let ghost av = attrs_view(*tag);
    let key = field_key_str(f);
    let mut r: Vec<String> = Vec::new();
    let mut i: usize = 0;
    while i < tag.attrs.len()
        invariant
            av == attrs_view(*tag),
            key@ == field_key(f),
            i <= tag.attrs@.len(),
            av.len() == tag.attrs@.len(),
            r@.map_values(|s: String| s@) == key_values(av.take(i as int), field_key(f)),
        decreases tag.attrs@.len() - i,
    {
        let ghost before = r@;
        assert(av.take(i + 1).drop_last() =~= av.take(i as int));
        assert(av.take(i + 1).last() == av[i as int]);
        assert(av[i as int] == crate::xml::attr_view(tag.attrs@[i as int]));
        match &tag.attrs[i] {
            Some((k, v)) => {
                let kk = attr_key_of(k.as_str());
                let same = crate::text::eq_lit(&kk, key);
                if same {
                    r.push(v.clone());
                    assert(r@.map_values(|s: String| s@) =~= before.map_values(|s: String| s@).push(v@));
                }
            },
            None => {},
        }
        i = i + 1;
    }
    assert(av.take(i as int) =~= av);
    r
}

/// The unescaped text of the attribute for `f` (see `text_attr`).
fn read_text_attr(tag: &XmlTag, f: NetField) -> (r: Result<Option<String>, NetFileError>)
    ensures
        match r {
            Ok(Some(s)) => text_attr(attrs_view(*tag), f) == Ok::<Option<Seq<char>>, NetFileErrorView>(Some(s@)),
            Ok(None) => text_attr(attrs_view(*tag), f) == Ok::<Option<Seq<char>>, NetFileErrorView>(None),
            Err(e) => text_attr(attrs_view(*tag), f) == Err::<Option<Seq<char>>, NetFileErrorView>(error_view(e)),
        },
{
    let vals = values_for(tag, f);
    let ghost m = key_values(attrs_view(*tag), field_key(f));
    assert(vals@.len() == m.len());
    if vals.len() >= 2 {
        return Err(NetFileError::Duplicate(f));
    }
    if vals.len() == 0 {
        return Ok(None);
    }
    assert(vals@[0]@ == m[0]);
    match unescape_value(vals[0].as_str()) {
        Some(t) => Ok(Some(t)),
        None => Err(NetFileError::BadAttribute),
    }
}

fn read_required_text(tag: &XmlTag, f: NetField) -> (r: Result<String, NetFileError>)
    ensures
        match r {
            Ok(s) => required_text(attrs_view(*tag), f) == Ok::<Seq<char>, NetFileErrorView>(s@),
            Err(e) => required_text(attrs_view(*tag), f) == Err::<Seq<char>, NetFileErrorView>(error_view(e)),
        },
{
    match read_text_attr(tag, f) {
        Err(e) => Err(e),
        Ok(None) => Err(NetFileError::Missing(f)),
        Ok(Some(t)) => Ok(t),
    }
}

fn read_optional_text(tag: &XmlTag, f: NetField) -> (r: Result<Option<String>, NetFileError>)
    ensures
        match r {
            Ok(Some(s)) => optional_text(attrs_view(*tag), f) == Ok::<Option<Seq<char>>, NetFileErrorView>(Some(s@)),
            Ok(None) => optional_text(attrs_view(*tag), f) == Ok::<Option<Seq<char>>, NetFileErrorView>(None),
            Err(e) => optional_text(attrs_view(*tag), f) == Err::<Option<Seq<char>>, NetFileErrorView>(error_view(e)),
        },
{
    match read_text_attr(tag, f) {
        Err(e) => Err(e),
        Ok(None) => Ok(None),
        Ok(Some(t)) => {
            if t.unicode_len() == 0 {
                Ok(None)
            } else {
                Ok(Some(t))
            }
        },
    }
}

fn read_required_number(tag: &XmlTag, f: NetField) -> (r: Result<String, NetFileError>)
    ensures
        match r {
            Ok(s) => required_number(attrs_view(*tag), f) == Ok::<Seq<char>, NetFileErrorView>(s@),
            Err(e) => required_number(attrs_view(*tag), f) == Err::<Seq<char>, NetFileErrorView>(error_view(e)),
        },
{
    match read_required_text(tag, f) {
        Err(e) => Err(e),
        Ok(t) => {
            let c = chars_of(t.as_str());
            if float_literal_ok(&c) {
                Ok(t)
            } else {
                Err(NetFileError::InvalidNumber(f))
            }
        },
    }
}

fn read_optional_number(tag: &XmlTag, f: NetField) -> (r: Result<Option<String>, NetFileError>)
    ensures
        match r {
            Ok(Some(s)) => optional_number(attrs_view(*tag), f) == Ok::<Option<Seq<char>>, NetFileErrorView>(Some(s@)),
            Ok(None) => optional_number(attrs_view(*tag), f) == Ok::<Option<Seq<char>>, NetFileErrorView>(None),
            Err(e) => optional_number(attrs_view(*tag), f) == Err::<Option<Seq<char>>, NetFileErrorView>(error_view(e)),
        },
{
    match read_optional_text(tag, f) {
        Err(e) => Err(e),
        Ok(None) => Ok(None),
        Ok(Some(t)) => {
            let c = chars_of(t.as_str());
            if float_literal_ok(&c) {
                Ok(Some(t))
            } else {
                Err(NetFileError::InvalidNumber(f))
            }
        },
    }
}

// ---------------------------------------------------------------------------
// Records
// ---------------------------------------------------------------------------

/// A number written with an optional unit, as in `<length value="55.0" unit="km"/>`.
#[derive(Debug, Clone, PartialEq, Eq)]
pub struct NetValue {
    pub value: String,
    pub unit: Option<String>,
}

/// The bounds of a `pressure` element.
#[derive(Debug, Clone, PartialEq, Eq)]
pub struct NetBound {
    pub lower: Option<String>,
    pub upper: Option<String>,
    pub value: Option<String>,
}

/// A node as written: its attributes and the child elements the schema knows.
#[derive(Debug, Clone, PartialEq, Eq)]
pub struct NetNode {
    pub id: String,
    pub x: String,
    pub y: String,
    pub lon: Option<String>,
    pub lat: Option<String>,
    pub height_attr: Option<String>,
    pub height: Option<NetValue>,
    pub pressure: Option<NetBound>,
    pub pressure_min: Option<NetValue>,
    pub pressure_max: Option<NetValue>,
    pub flow_min: Option<NetValue>,
    pub flow_max: Option<NetValue>,
}

/// The element a connection is written as.
#[derive(Debug, Clone, Copy, PartialEq, Eq, Structural)]
pub enum ConnectionElement {
    Pipe,
    Valve,
    ShortPipe,
    Resistor,
    ControlValve,
    CompressorStation,
}

/// A connection as written: its attributes and the child elements the schema knows.
#[derive(Debug, Clone, PartialEq, Eq)]
pub struct NetConnection {
    pub element: ConnectionElement,
    pub id: String,
    pub from: String,
    pub to: String,
    pub length_attr: Option<String>,
    pub diameter_attr: Option<String>,
    pub roughness_attr: Option<String>,
    pub drag_factor_attr: Option<String>,
    pub length: Option<NetValue>,
    pub diameter: Option<NetValue>,
    pub roughness: Option<NetValue>,
    pub flow_min: Option<NetValue>,
    pub flow_max: Option<NetValue>,
    pub drag_factor: Option<NetValue>,
}

/// The nodes and connections of a network file, in document order.
#[derive(Debug, Clone, PartialEq, Eq)]
pub struct NetFile {
    pub nodes: Vec<NetNode>,
    pub connections: Vec<NetConnection>,
}

pub struct ValueView {
    pub value: Seq<char>,
    pub unit: Option<Seq<char>>,
}

pub struct BoundView {
    pub lower: Option<Seq<char>>,
    pub upper: Option<Seq<char>>,
    pub value: Option<Seq<char>>,
}

pub struct NodeView {
    pub id: Seq<char>,
    pub x: Seq<char>,
    pub y: Seq<char>,
    pub lon: Option<Seq<char>>,
    pub lat: Option<Seq<char>>,
    pub height_attr: Option<Seq<char>>,
    pub height: Option<ValueView>,
    pub pressure: Option<BoundView>,
    pub pressure_min: Option<ValueView>,
    pub pressure_max: Option<ValueView>,
    pub flow_min: Option<ValueView>,
    pub flow_max: Option<ValueView>,
}

pub struct ConnView {
    pub element: ConnectionElement,
    pub id: Seq<char>,
    pub from: Seq<char>,
    pub to: Seq<char>,
    pub length_attr: Option<Seq<char>>,
    pub diameter_attr: Option<Seq<char>>,
    pub roughness_attr: Option<Seq<char>>,
    pub drag_factor_attr: Option<Seq<char>>,
    pub length: Option<ValueView>,
    pub diameter: Option<ValueView>,
    pub roughness: Option<ValueView>,
    pub flow_min: Option<ValueView>,
    pub flow_max: Option<ValueView>,
    pub drag_factor: Option<ValueView>,
}

pub open spec fn text_view(o: Option<String>) -> Option<Seq<char>> {
    match o {
        Some(s) => Some(s@),
        None => None,
    }
}

pub open spec fn value_view(v: NetValue) -> ValueView {
    ValueView { value: v.value@, unit: text_view(v.unit) }
}

pub open spec fn opt_value_view(o: Option<NetValue>) -> Option<ValueView> {
    match o {
        Some(v) => Some(value_view(v)),
        None => None,
    }
}

pub open spec fn bound_view(b: NetBound) -> BoundView {
    BoundView { lower: text_view(b.lower), upper: text_view(b.upper), value: text_view(b.value) }
}

pub open spec fn node_view(n: NetNode) -> NodeView {
    NodeView {
        id: n.id@,
        x: n.x@,
        y: n.y@,
        lon: text_view(n.lon),
        lat: text_view(n.lat),
        height_attr: text_view(n.height_attr),
        height: opt_value_view(n.height),
        pressure: match n.pressure {
            Some(b) => Some(bound_view(b)),
            None => None,
        },
        pressure_min: opt_value_view(n.pressure_min),
        pressure_max: opt_value_view(n.pressure_max),
        flow_min: opt_value_view(n.flow_min),
        flow_max: opt_value_view(n.flow_max),
    }
}

pub open spec fn conn_view(c: NetConnection) -> ConnView {
    ConnView {
        element: c.element,
        id: c.id@,
        from: c.from@,
        to: c.to@,
        length_attr: text_view(c.length_attr),
        diameter_attr: text_view(c.diameter_attr),
        roughness_attr: text_view(c.roughness_attr),
        drag_factor_attr: text_view(c.drag_factor_attr),
        length: opt_value_view(c.length),
        diameter: opt_value_view(c.diameter),
        roughness: opt_value_view(c.roughness),
        flow_min: opt_value_view(c.flow_min),
        flow_max: opt_value_view(c.flow_max),
        drag_factor: opt_value_view(c.drag_factor),
    }
}

pub open spec fn nodes_view(v: Seq<NetNode>) -> Seq<NodeView> {
    v.map_values(|n: NetNode| node_view(n))
}

pub open spec fn conns_view(v: Seq<NetConnection>) -> Seq<ConnView> {
    v.map_values(|c: NetConnection| conn_view(c))
}

// ---------------------------------------------------------------------------
// Elements
// ---------------------------------------------------------------------------

/// A value element (`height`, `length`, `flowMin`, ...): a required number `value` and
/// an optional `unit`.
pub open spec fn value_of(attrs: Seq<AttrView>) -> Result<ValueView, NetFileErrorView> {
    if !attrs_readable(attrs) {
        Err(NetFileErrorView::BadAttribute)
    } else {
        match required_number(attrs, NetField::Value) {
            Err(e) => Err(e),
            Ok(v) => match optional_text(attrs, NetField::Unit) {
                Err(e) => Err(e),
                Ok(u) => Ok(ValueView { value: v, unit: u }),
            },
        }
    }
}

/// A `pressure` element: optional `lower`, `upper` and `value` numbers.
pub open spec fn bound_of(attrs: Seq<AttrView>) -> Result<BoundView, NetFileErrorView> {
    if !attrs_readable(attrs) {
        Err(NetFileErrorView::BadAttribute)
    } else {
        match optional_number(attrs, NetField::Lower) {
            Err(e) => Err(e),
            Ok(lo) => match optional_number(attrs, NetField::Upper) {
                Err(e) => Err(e),
                Ok(up) => match optional_number(attrs, NetField::Value) {
                    Err(e) => Err(e),
                    Ok(v) => Ok(BoundView { lower: lo, upper: up, value: v }),
                },
            },
        }
    }
}

/// A node element: required `id`, `x` and `y`; optional `geoWGS84Long`, `geoWGS84Lat`
/// and `height` numbers.
pub open spec fn node_of(attrs: Seq<AttrView>) -> Result<NodeView, NetFileErrorView> {
    if !attrs_readable(attrs) {
        Err(NetFileErrorView::BadAttribute)
    } else {
        match required_text(attrs, NetField::Id) {
            Err(e) => Err(e),
            Ok(id) => match required_number(attrs, NetField::X) {
                Err(e) => Err(e),
                Ok(x) => match required_number(attrs, NetField::Y) {
                    Err(e) => Err(e),
                    Ok(y) => match optional_number(attrs, NetField::GeoLong) {
                        Err(e) => Err(e),
                        Ok(lon) => match optional_number(attrs, NetField::GeoLat) {
                            Err(e) => Err(e),
                            Ok(lat) => match optional_number(attrs, NetField::Height) {
                                Err(e) => Err(e),
                                Ok(h) => Ok(NodeView {
                                    id,
                                    x,
                                    y,
                                    lon,
                                    lat,
                                    height_attr: h,
                                    height: None,
                                    pressure: None,
                                    pressure_min: None,
                                    pressure_max: None,
                                    flow_min: None,
                                    flow_max: None,
                                }),
                            },
                        },
                    },
                },
            },
        }
    }
}

/// The connection element named `name`, if it is one.
pub open spec fn element_of(name: Seq<char>) -> Option<ConnectionElement> {
    if name == "pipe"@ {
        Some(ConnectionElement::Pipe)
    } else if name == "valve"@ {
        Some(ConnectionElement::Valve)
    } else if name == "shortPipe"@ {
        Some(ConnectionElement::ShortPipe)
    } else if name == "resistor"@ {
        Some(ConnectionElement::Resistor)
    } else if name == "controlValve"@ {
        Some(ConnectionElement::ControlValve)
    } else if name == "compressorStation"@ {
        Some(ConnectionElement::CompressorStation)
    } else {
        None
    }
}

/// A connection element: required `id`, `from` and `to`; optional `length`, `diameter`,
/// `roughness` and `dragFactor` numbers.
pub open spec fn conn_of(name: Seq<char>, attrs: Seq<AttrView>) -> Result<ConnView, NetFileErrorView> {
    match element_of(name) {
        None => Err(NetFileErrorView::UnknownConnection(name)),
        Some(el) => if !attrs_readable(attrs) {
            Err(NetFileErrorView::BadAttribute)
        } else {
            match required_text(attrs, NetField::Id) {
                Err(e) => Err(e),
                Ok(id) => match required_text(attrs, NetField::From) {
                    Err(e) => Err(e),
                    Ok(from) => match required_text(attrs, NetField::To) {
                        Err(e) => Err(e),
                        Ok(to) => match optional_number(attrs, NetField::Length) {
                            Err(e) => Err(e),
                            Ok(l) => match optional_number(attrs, NetField::Diameter) {
                                Err(e) => Err(e),
                                Ok(d) => match optional_number(attrs, NetField::Roughness) {
                                    Err(e) => Err(e),
                                    Ok(r) => match optional_number(attrs, NetField::DragFactor) {
                                        Err(e) => Err(e),
                                        Ok(df) => Ok(ConnView {
                                            element: el,
                                            id,
                                            from,
                                            to,
                                            length_attr: l,
                                            diameter_attr: d,
                                            roughness_attr: r,
                                            drag_factor_attr: df,
                                            length: None,
                                            diameter: None,
                                            roughness: None,
                                            flow_min: None,
                                            flow_max: None,
                                            drag_factor: None,
                                        }),
                                    },
                                },
                            },
                        },
                    },
                },
            }
        },
    }
}

/// Sets a value field given once: an error when it is already set.
pub open spec fn set_value(
    slot: Option<ValueView>,
    f: NetField,
    attrs: Seq<AttrView>,
) -> Result<ValueView, NetFileErrorView> {
    if slot is Some {
        Err(NetFileErrorView::Duplicate(f))
    } else {
        value_of(attrs)
    }
}

/// A child element of a node.
pub open spec fn node_child(n: NodeView, name: Seq<char>, attrs: Seq<AttrView>) -> Result<NodeView, NetFileErrorView> {
    if name == field_key(NetField::Height) {
        match set_value(n.height, NetField::Height, attrs) {
            Err(e) => Err(e),
            Ok(v) => Ok(NodeView { height: Some(v), ..n }),
        }
    } else if name == field_key(NetField::Pressure) {
        if n.pressure is Some {
            Err(NetFileErrorView::Duplicate(NetField::Pressure))
        } else {
            match bound_of(attrs) {
                Err(e) => Err(e),
                Ok(b) => Ok(NodeView { pressure: Some(b), ..n }),
            }
        }
    } else if name == field_key(NetField::PressureMin) {
        match set_value(n.pressure_min, NetField::PressureMin, attrs) {
            Err(e) => Err(e),
            Ok(v) => Ok(NodeView { pressure_min: Some(v), ..n }),
        }
    } else if name == field_key(NetField::PressureMax) {
        match set_value(n.pressure_max, NetField::PressureMax, attrs) {
            Err(e) => Err(e),
            Ok(v) => Ok(NodeView { pressure_max: Some(v), ..n }),
        }
    } else if name == field_key(NetField::FlowMin) {
        match set_value(n.flow_min, NetField::FlowMin, attrs) {
            Err(e) => Err(e),
            Ok(v) => Ok(NodeView { flow_min: Some(v), ..n }),
        }
    } else if name == field_key(NetField::FlowMax) {
        match set_value(n.flow_max, NetField::FlowMax, attrs) {
            Err(e) => Err(e),
            Ok(v) => Ok(NodeView { flow_max: Some(v), ..n }),
        }
    } else {
        Ok(n)
    }
}

/// A child element of a connection.
pub open spec fn conn_child(c: ConnView, name: Seq<char>, attrs: Seq<AttrView>) -> Result<ConnView, NetFileErrorView> {
    if name == field_key(NetField::Length) {
        match set_value(c.length, NetField::Length, attrs) {
            Err(e) => Err(e),
            Ok(v) => Ok(ConnView { length: Some(v), ..c }),
        }
    } else if name == field_key(NetField::Diameter) {
        match set_value(c.diameter, NetField::Diameter, attrs) {
            Err(e) => Err(e),
            Ok(v) => Ok(ConnView { diameter: Some(v), ..c }),
        }
    } else if name == field_key(NetField::Roughness) {
        match set_value(c.roughness, NetField::Roughness, attrs) {
            Err(e) => Err(e),
            Ok(v) => Ok(ConnView { roughness: Some(v), ..c }),
        }
    } else if name == field_key(NetField::FlowMin) {
        match set_value(c.flow_min, NetField::FlowMin, attrs) {
            Err(e) => Err(e),
            Ok(v) => Ok(ConnView { flow_min: Some(v), ..c }),
        }
    } else if name == field_key(NetField::FlowMax) {
        match set_value(c.flow_max, NetField::FlowMax, attrs) {
            Err(e) => Err(e),
            Ok(v) => Ok(ConnView { flow_max: Some(v), ..c }),
        }
    } else if name == field_key(NetField::DragFactor) {
        match set_value(c.drag_factor, NetField::DragFactor, attrs) {
            Err(e) => Err(e),
            Ok(v) => Ok(ConnView { drag_factor: Some(v), ..c }),
        }
    } else {
        Ok(c)
    }
}

fn read_value(tag: &XmlTag) -> (r: Result<NetValue, NetFileError>)
    ensures
        match r {
            Ok(v) => value_of(attrs_view(*tag)) == Ok::<ValueView, NetFileErrorView>(value_view(v)),
            Err(e) => value_of(attrs_view(*tag)) == Err::<ValueView, NetFileErrorView>(error_view(e)),
        },
{
    if !all_attrs_readable(tag) {
        return Err(NetFileError::BadAttribute);
    }
    let value = match read_required_number(tag, NetField::Value) {
        Err(e) => return Err(e),
        Ok(v) => v,
    };
    let unit = match read_optional_text(tag, NetField::Unit) {
        Err(e) => return Err(e),
        Ok(u) => u,
    };
    Ok(NetValue { value, unit })
}

fn read_bound(tag: &XmlTag) -> (r: Result<NetBound, NetFileError>)
    ensures
        match r {
            Ok(b) => bound_of(attrs_view(*tag)) == Ok::<BoundView, NetFileErrorView>(bound_view(b)),
            Err(e) => bound_of(attrs_view(*tag)) == Err::<BoundView, NetFileErrorView>(error_view(e)),
        },
{
    if !all_attrs_readable(tag) {
        return Err(NetFileError::BadAttribute);
    }
    let lower = match read_optional_number(tag, NetField::Lower) {
        Err(e) => return Err(e),
        Ok(v) => v,
    };
    let upper = match read_optional_number(tag, NetField::Upper) {
        Err(e) => return Err(e),
        Ok(v) => v,
    };
    let value = match read_optional_number(tag, NetField::Value) {
        Err(e) => return Err(e),
        Ok(v) => v,
    };
    Ok(NetBound { lower, upper, value })
}

fn read_node(tag: &XmlTag) -> (r: Result<NetNode, NetFileError>)
    ensures
        match r {
            Ok(n) => node_of(attrs_view(*tag)) == Ok::<NodeView, NetFileErrorView>(node_view(n)),
            Err(e) => node_of(attrs_view(*tag)) == Err::<NodeView, NetFileErrorView>(error_view(e)),
        },
{
    if !all_attrs_readable(tag) {
        return Err(NetFileError::BadAttribute);
    }
    let id = match read_required_text(tag, NetField::Id) {
        Err(e) => return Err(e),
        Ok(v) => v,
    };
    let x = match read_required_number(tag, NetField::X) {
        Err(e) => return Err(e),
        Ok(v) => v,
    };
    let y = match read_required_number(tag, NetField::Y) {
        Err(e) => return Err(e),
        Ok(v) => v,
    };
    let lon = match read_optional_number(tag, NetField::GeoLong) {
        Err(e) => return Err(e),
        Ok(v) => v,
    };
    let lat = match read_optional_number(tag, NetField::GeoLat) {
        Err(e) => return Err(e),
        Ok(v) => v,
    };
    let height_attr = match read_optional_number(tag, NetField::Height) {
        Err(e) => return Err(e),
        Ok(v) => v,
    };
    Ok(NetNode {
        id,
        x,
        y,
        lon,
        lat,
        height_attr,
        height: None,
        pressure: None,
        pressure_min: None,
        pressure_max: None,
        flow_min: None,
        flow_max: None,
    })
}

fn element_named(name: &str) -> (r: Option<ConnectionElement>)
    ensures
        r == element_of(name@),
{
    if str_eq(name, "pipe") {
        Some(ConnectionElement::Pipe)
    } else if str_eq(name, "valve") {
        Some(ConnectionElement::Valve)
    } else if str_eq(name, "shortPipe") {
        Some(ConnectionElement::ShortPipe)
    } else if str_eq(name, "resistor") {
        Some(ConnectionElement::Resistor)
    } else if str_eq(name, "controlValve") {
        Some(ConnectionElement::ControlValve)
    } else if str_eq(name, "compressorStation") {
        Some(ConnectionElement::CompressorStation)
    } else {
        None
    }
}

fn read_conn(tag: &XmlTag) -> (r: Result<NetConnection, NetFileError>)
    ensures
        match r {
            Ok(c) => conn_of(tag.name@, attrs_view(*tag)) == Ok::<ConnView, NetFileErrorView>(conn_view(c)),
            Err(e) => conn_of(tag.name@, attrs_view(*tag)) == Err::<ConnView, NetFileErrorView>(error_view(e)),
        },
{
    let element = match element_named(tag.name.as_str()) {
        None => return Err(NetFileError::UnknownConnection(tag.name.clone())),
        Some(el) => el,
    };
    if !all_attrs_readable(tag) {
        return Err(NetFileError::BadAttribute);
    }
    let id = match read_required_text(tag, NetField::Id) {
        Err(e) => return Err(e),
        Ok(v) => v,
    };
    let from = match read_required_text(tag, NetField::From) {
        Err(e) => return Err(e),
        Ok(v) => v,
    };
    let to = match read_required_text(tag, NetField::To) {
        Err(e) => return Err(e),
        Ok(v) => v,
    };
    let length_attr = match read_optional_number(tag, NetField::Length) {
        Err(e) => return Err(e),
        Ok(v) => v,
    };
    let diameter_attr = match read_optional_number(tag, NetField::Diameter) {
        Err(e) => return Err(e),
        Ok(v) => v,
    };
    let roughness_attr = match read_optional_number(tag, NetField::Roughness) {
        Err(e) => return Err(e),
        Ok(v) => v,
    };
    let drag_factor_attr = match read_optional_number(tag, NetField::DragFactor) {
        Err(e) => return Err(e),
        Ok(v) => v,
    };
    Ok(NetConnection {
        element,
        id,
        from,
        to,
        length_attr,
        diameter_attr,
        roughness_attr,
        drag_factor_attr,
        length: None,
        diameter: None,
        roughness: None,
        flow_min: None,
        flow_max: None,
        drag_factor: None,
    })
}

/// Reads a value element into `slot`, given once.
fn fill_value(slot: &Option<NetValue>, f: NetField, tag: &XmlTag) -> (r: Result<NetValue, NetFileError>)
    ensures
        match r {
            Ok(v) => set_value(opt_value_view(*slot), f, attrs_view(*tag)) == Ok::<ValueView, NetFileErrorView>(value_view(v)),
            Err(e) => set_value(opt_value_view(*slot), f, attrs_view(*tag)) == Err::<ValueView, NetFileErrorView>(error_view(e)),
        },
{
    if slot.is_some() {
        return Err(NetFileError::Duplicate(f));
    }
    read_value(tag)
}

fn read_node_child(n: NetNode, tag: &XmlTag) -> (r: Result<NetNode, NetFileError>)
    ensures
        match r {
            Ok(m) => node_child(node_view(n), tag.name@, attrs_view(*tag)) == Ok::<NodeView, NetFileErrorView>(node_view(m)),
            Err(e) => node_child(node_view(n), tag.name@, attrs_view(*tag)) == Err::<NodeView, NetFileErrorView>(error_view(e)),
        },
{
    let name = tag.name.as_str();
    if str_eq(name, field_key_str(NetField::Height)) {
        match fill_value(&n.height, NetField::Height, tag) {
            Err(e) => Err(e),
            Ok(v) => Ok(NetNode { height: Some(v), ..n }),
        }
    } else if str_eq(name, field_key_str(NetField::Pressure)) {
        if n.pressure.is_some() {
            return Err(NetFileError::Duplicate(NetField::Pressure));
        }
        match read_bound(tag) {
            Err(e) => Err(e),
            Ok(b) => Ok(NetNode { pressure: Some(b), ..n }),
        }
    } else if str_eq(name, field_key_str(NetField::PressureMin)) {
        match fill_value(&n.pressure_min, NetField::PressureMin, tag) {
            Err(e) => Err(e),
            Ok(v) => Ok(NetNode { pressure_min: Some(v), ..n }),
        }
    } else if str_eq(name, field_key_str(NetField::PressureMax)) {
        match fill_value(&n.pressure_max, NetField::PressureMax, tag) {
            Err(e) => Err(e),
            Ok(v) => Ok(NetNode { pressure_max: Some(v), ..n }),
        }
    } else if str_eq(name, field_key_str(NetField::FlowMin)) {
        match fill_value(&n.flow_min, NetField::FlowMin, tag) {
            Err(e) => Err(e),
            Ok(v) => Ok(NetNode { flow_min: Some(v), ..n }),
        }
    } else if str_eq(name, field_key_str(NetField::FlowMax)) {
        match fill_value(&n.flow_max, NetField::FlowMax, tag) {
            Err(e) => Err(e),
            Ok(v) => Ok(NetNode { flow_max: Some(v), ..n }),
        }
    } else {
        Ok(n)
    }
}

fn read_conn_child(c: NetConnection, tag: &XmlTag) -> (r: Result<NetConnection, NetFileError>)
    ensures
        match r {
            Ok(m) => conn_child(conn_view(c), tag.name@, attrs_view(*tag)) == Ok::<ConnView, NetFileErrorView>(conn_view(m)),
            Err(e) => conn_child(conn_view(c), tag.name@, attrs_view(*tag)) == Err::<ConnView, NetFileErrorView>(error_view(e)),
        },
{
    let name = tag.name.as_str();
    if str_eq(name, field_key_str(NetField::Length)) {
        match fill_value(&c.length, NetField::Length, tag) {
            Err(e) => Err(e),
            Ok(v) => Ok(NetConnection { length: Some(v), ..c }),
        }
    } else if str_eq(name, field_key_str(NetField::Diameter)) {
        match fill_value(&c.diameter, NetField::Diameter, tag) {
            Err(e) => Err(e),
            Ok(v) => Ok(NetConnection { diameter: Some(v), ..c }),
        }
    } else if str_eq(name, field_key_str(NetField::Roughness)) {
        match fill_value(&c.roughness, NetField::Roughness, tag) {
            Err(e) => Err(e),
            Ok(v) => Ok(NetConnection { roughness: Some(v), ..c }),
        }
    } else if str_eq(name, field_key_str(NetField::FlowMin)) {
        match fill_value(&c.flow_min, NetField::FlowMin, tag) {
            Err(e) => Err(e),
            Ok(v) => Ok(NetConnection { flow_min: Some(v), ..c }),
        }
    } else if str_eq(name, field_key_str(NetField::FlowMax)) {
        match fill_value(&c.flow_max, NetField::FlowMax, tag) {
            Err(e) => Err(e),
            Ok(v) => Ok(NetConnection { flow_max: Some(v), ..c }),
        }
    } else if str_eq(name, field_key_str(NetField::DragFactor)) {
        match fill_value(&c.drag_factor, NetField::DragFactor, tag) {
            Err(e) => Err(e),
            Ok(v) => Ok(NetConnection { drag_factor: Some(v), ..c }),
        }
    } else {
        Ok(c)
    }
}

// ---------------------------------------------------------------------------
// The document
// ---------------------------------------------------------------------------

/// Which container the elements at the entry level belong to.
#[derive(Debug, Clone, Copy, PartialEq, Eq, Structural)]
pub enum Section {
    Outside,
    Nodes,
    Connections,
    Other,
}

/// What has been read: how many elements are open, whether the root has closed, the
/// container being read, which containers were met, the finished entries, and the entry
/// being read.
pub struct ReadView {
    pub depth: nat,
    pub done: bool,
    pub section: Section,
    pub seen_nodes: bool,
    pub seen_connections: bool,
    pub nodes: Seq<NodeView>,
    pub connections: Seq<ConnView>,
    pub node: Option<NodeView>,
    pub conn: Option<ConnView>,
}

/// The deepest nesting that is counted.
pub open spec fn deepest() -> nat {
    0xffff_ffff_ffff_ffff
}

pub open spec fn read_initial() -> ReadView {
    ReadView {
        depth: 0,
        done: false,
        section: Section::Outside,
        seen_nodes: false,
        seen_connections: false,
        nodes: Seq::empty(),
        connections: Seq::empty(),
        node: None,
        conn: None,
    }
}

/// The root closes: both containers must have been met.
pub open spec fn finish_root(st: ReadView) -> Result<ReadView, NetFileErrorView> {
    if !st.seen_nodes {
        Err(NetFileErrorView::Missing(NetField::Nodes))
    } else if !st.seen_connections {
        Err(NetFileErrorView::Missing(NetField::Connections))
    } else {
        Ok(ReadView { depth: 0, done: true, ..st })
    }
}

/// A container is named by its field, with or without the `framework:` prefix.
pub open spec fn container_name(name: Seq<char>, f: NetField) -> bool {
    name == field_key(f) || name == "framework:"@ + field_key(f)
}

/// The root element opens.
pub open spec fn open_root(st: ReadView, attrs: Seq<AttrView>, empty: bool) -> Result<ReadView, NetFileErrorView> {
    if !attrs_readable(attrs) {
        Err(NetFileErrorView::BadAttribute)
    } else if empty {
        finish_root(st)
    } else {
        Ok(ReadView { depth: 1, ..st })
    }
}

/// An element opens inside the root: a container, or anything else, passed over.
pub open spec fn open_top(st: ReadView, name: Seq<char>, attrs: Seq<AttrView>, empty: bool) -> Result<ReadView, NetFileErrorView> {
    let inner: nat = if empty { st.depth } else { st.depth + 1 };
    if container_name(name, NetField::Nodes) {
        if st.seen_nodes {
            Err(NetFileErrorView::Duplicate(NetField::Nodes))
        } else if !attrs_readable(attrs) {
            Err(NetFileErrorView::BadAttribute)
        } else {
            Ok(ReadView {
                depth: inner,
                seen_nodes: true,
                section: if empty { Section::Outside } else { Section::Nodes },
                ..st
            })
        }
    } else if container_name(name, NetField::Connections) {
        if st.seen_connections {
            Err(NetFileErrorView::Duplicate(NetField::Connections))
        } else if !attrs_readable(attrs) {
            Err(NetFileErrorView::BadAttribute)
        } else {
            Ok(ReadView {
                depth: inner,
                seen_connections: true,
                section: if empty { Section::Outside } else { Section::Connections },
                ..st
            })
        }
    } else {
        Ok(ReadView { depth: inner, section: if empty { Section::Outside } else { Section::Other }, ..st })
    }
}

/// An element opens inside a container: a node, a connection, or (elsewhere) passed over.
pub open spec fn open_entry(st: ReadView, name: Seq<char>, attrs: Seq<AttrView>, empty: bool) -> Result<ReadView, NetFileErrorView> {
    let inner: nat = if empty { st.depth } else { st.depth + 1 };
    match st.section {
        Section::Nodes => match node_of(attrs) {
            Err(e) => Err(e),
            Ok(n) => if empty {
                Ok(ReadView { nodes: st.nodes.push(n), ..st })
            } else {
                Ok(ReadView { depth: 3, node: Some(n), ..st })
            },
        },
        Section::Connections => match conn_of(name, attrs) {
            Err(e) => Err(e),
            Ok(c) => if empty {
                Ok(ReadView { connections: st.connections.push(c), ..st })
            } else {
                Ok(ReadView { depth: 3, conn: Some(c), ..st })
            },
        },
        _ => Ok(ReadView { depth: inner, ..st }),
    }
}

/// An element opens inside an entry: a field of the node or connection being read.
pub open spec fn open_child(st: ReadView, name: Seq<char>, attrs: Seq<AttrView>, empty: bool) -> Result<ReadView, NetFileErrorView> {
    let inner: nat = if empty { st.depth } else { st.depth + 1 };
    match st.node {
        Some(n) => match node_child(n, name, attrs) {
            Err(e) => Err(e),
            Ok(m) => Ok(ReadView { depth: inner, node: Some(m), ..st }),
        },
        None => match st.conn {
            Some(c) => match conn_child(c, name, attrs) {
                Err(e) => Err(e),
                Ok(m) => Ok(ReadView { depth: inner, conn: Some(m), ..st }),
            },
            None => Ok(ReadView { depth: inner, ..st }),
        },
    }
}

/// A start tag (`empty` false) or an empty-element tag (`empty` true).
pub open spec fn net_open(st: ReadView, name: Seq<char>, attrs: Seq<AttrView>, empty: bool) -> Result<ReadView, NetFileErrorView> {
    if !empty && st.depth >= deepest() {
        Err(NetFileErrorView::TooDeep)
    } else if st.depth == 0 {
        open_root(st, attrs, empty)
    } else if st.depth == 1 {
        open_top(st, name, attrs, empty)
    } else if st.depth == 2 {
        open_entry(st, name, attrs, empty)
    } else if st.depth == 3 {
        open_child(st, name, attrs, empty)
    } else {
        Ok(ReadView { depth: if empty { st.depth } else { st.depth + 1 }, ..st })
    }
}

/// An end tag.
pub open spec fn net_close(st: ReadView) -> Result<ReadView, NetFileErrorView> {
    if st.depth == 0 {
        Ok(st)
    } else if st.depth == 1 {
        finish_root(ReadView { depth: 0, ..st })
    } else if st.depth == 2 {
        Ok(ReadView { depth: 1, section: Section::Outside, ..st })
    } else if st.depth == 3 {
        Ok(ReadView {
            depth: 2,
            nodes: match st.node {
                Some(n) => st.nodes.push(n),
                None => st.nodes,
            },
            connections: match st.conn {
                Some(c) => st.connections.push(c),
                None => st.connections,
            },
            node: None,
            conn: None,
            ..st
        })
    } else {
        Ok(ReadView { depth: (st.depth - 1) as nat, ..st })
    }
}

#[verifier::opaque]
pub open spec fn net_step(st: ReadView, e: XmlEventView) -> Result<ReadView, NetFileErrorView> {
    match e {
        XmlEventView::Start(n, a) => net_open(st, n, a, false),
        XmlEventView::Empty(n, a) => net_open(st, n, a, true),
        XmlEventView::End(_) => net_close(st),
        _ => Ok(st),
    }
}

/// The nodes and connections read from `events` in state `st`: the reading stops when the
/// root element closes; the end of input before that, an XML error or a schema error is
/// an error.
pub open spec fn net_run(st: ReadView, events: Seq<XmlEventView>) -> Result<(Seq<NodeView>, Seq<ConnView>), NetFileErrorView>
    decreases events.len(),
{
    if events.len() == 0 {
        Err(NetFileErrorView::UnexpectedEnd)
    } else {
        match events[0] {
            XmlEventView::Eof => Err(NetFileErrorView::UnexpectedEnd),
            XmlEventView::Error(m) => Err(NetFileErrorView::Xml(m)),
            e => match net_step(st, e) {
                Err(x) => Err(x),
                Ok(s2) => if s2.done {
                    Ok((s2.nodes, s2.connections))
                } else {
                    net_run(s2, events.drop_first())
                },
            },
        }
    }
}

/// The state of the reading.
pub struct NetReader {
    pub depth: u64,
    pub done: bool,
    pub section: Section,
    pub seen_nodes: bool,
    pub seen_connections: bool,
    pub nodes: Vec<NetNode>,
    pub connections: Vec<NetConnection>,
    pub node: Option<NetNode>,
    pub conn: Option<NetConnection>,
}

pub open spec fn reader_view(r: NetReader) -> ReadView {
    ReadView {
        depth: r.depth as nat,
        done: r.done,
        section: r.section,
        seen_nodes: r.seen_nodes,
        seen_connections: r.seen_connections,
        nodes: nodes_view(r.nodes@),
        connections: conns_view(r.connections@),
        node: match r.node {
            Some(n) => Some(node_view(n)),
            None => None,
        },
        conn: match r.conn {
            Some(c) => Some(conn_view(c)),
            None => None,
        },
    }
}

impl NetReader {
    pub fn new() -> (r: Self)
        ensures
            reader_view(r) == read_initial(),
    {
        let r = NetReader {
            depth: 0,
            done: false,
            section: Section::Outside,
            seen_nodes: false,
            seen_connections: false,
            nodes: Vec::new(),
            connections: Vec::new(),
            node: None,
            conn: None,
        };
        assert(nodes_view(r.nodes@) =~= Seq::<NodeView>::empty());
        assert(conns_view(r.connections@) =~= Seq::<ConnView>::empty());
        r
    }

    fn finish(&mut self) -> (r: Result<(), NetFileError>)
        requires
            old(self).depth == 0,
        ensures
            match r {
                Ok(()) => finish_root(reader_view(*old(self))) == Ok::<ReadView, NetFileErrorView>(reader_view(*final(self))),
                Err(e) => finish_root(reader_view(*old(self))) == Err::<ReadView, NetFileErrorView>(error_view(e)),
            },
    {
        if !self.seen_nodes {
            return Err(NetFileError::Missing(NetField::Nodes));
        }
        if !self.seen_connections {
            return Err(NetFileError::Missing(NetField::Connections));
        }
        self.done = true;
        Ok(())
    }

    fn push_node(&mut self, n: NetNode)
        ensures
            reader_view(*final(self)) == (ReadView { nodes: reader_view(*old(self)).nodes.push(node_view(n)), ..reader_view(*old(self)) }),
    {
        let ghost before = self.nodes@;
        self.nodes.push(n);
        assert(nodes_view(self.nodes@) =~= nodes_view(before).push(node_view(n)));
    }

    fn push_conn(&mut self, c: NetConnection)
        ensures
            reader_view(*final(self)) == (ReadView { connections: reader_view(*old(self)).connections.push(conn_view(c)), ..reader_view(*old(self)) }),
    {
        let ghost before = self.connections@;
        self.connections.push(c);
        assert(conns_view(self.connections@) =~= conns_view(before).push(conn_view(c)));
    }

    fn open_root_tag(&mut self, tag: &XmlTag, empty: bool) -> (r: Result<(), NetFileError>)
        requires
            old(self).depth == 0,
        ensures
            match r {
                Ok(()) => open_root(reader_view(*old(self)), attrs_view(*tag), empty) == Ok::<ReadView, NetFileErrorView>(reader_view(*final(self))),
                Err(e) => open_root(reader_view(*old(self)), attrs_view(*tag), empty) == Err::<ReadView, NetFileErrorView>(error_view(e)),
            },
    {
        if !all_attrs_readable(tag) {
            return Err(NetFileError::BadAttribute);
        }
        if empty {
            return self.finish();
        }
        self.depth = 1;
        Ok(())
    }

    fn open_top_tag(&mut self, tag: &XmlTag, empty: bool) -> (r: Result<(), NetFileError>)
        requires
            old(self).depth == 1,
        ensures
            match r {
                Ok(()) => open_top(reader_view(*old(self)), tag.name@, attrs_view(*tag), empty) == Ok::<ReadView, NetFileErrorView>(reader_view(*final(self))),
                Err(e) => open_top(reader_view(*old(self)), tag.name@, attrs_view(*tag), empty) == Err::<ReadView, NetFileErrorView>(error_view(e)),
            },
    {
        let inner: u64 = if empty { 1 } else { 2 };
        let name = tag.name.as_str();
        proof {
            reveal_strlit("framework:");
            reveal_strlit("nodes");
            reveal_strlit("connections");
            reveal_strlit("framework:nodes");
            reveal_strlit("framework:connections");
            assert("framework:"@ + "nodes"@ =~= "framework:nodes"@);
            assert("framework:"@ + "connections"@ =~= "framework:connections"@);
        }
        if str_eq(name, "nodes") || str_eq(name, "framework:nodes") {
            if self.seen_nodes {
                return Err(NetFileError::Duplicate(NetField::Nodes));
            }
            if !all_attrs_readable(tag) {
                return Err(NetFileError::BadAttribute);
            }
            self.depth = inner;
            self.seen_nodes = true;
            self.section = if empty { Section::Outside } else { Section::Nodes };
            return Ok(());
        }
        if str_eq(name, "connections") || str_eq(name, "framework:connections") {
            if self.seen_connections {
                return Err(NetFileError::Duplicate(NetField::Connections));
            }
            if !all_attrs_readable(tag) {
                return Err(NetFileError::BadAttribute);
            }
            self.depth = inner;
            self.seen_connections = true;
            self.section = if empty { Section::Outside } else { Section::Connections };
            return Ok(());
        }
        self.depth = inner;
        self.section = if empty { Section::Outside } else { Section::Other };
        Ok(())
    }

    fn open_entry_tag(&mut self, tag: &XmlTag, empty: bool) -> (r: Result<(), NetFileError>)
        requires
            old(self).depth == 2,
        ensures
            match r {
                Ok(()) => open_entry(reader_view(*old(self)), tag.name@, attrs_view(*tag), empty) == Ok::<ReadView, NetFileErrorView>(reader_view(*final(self))),
                Err(e) => open_entry(reader_view(*old(self)), tag.name@, attrs_view(*tag), empty) == Err::<ReadView, NetFileErrorView>(error_view(e)),
            },
    {
        match self.section {
            Section::Nodes => {
                match read_node(tag) {
                    Err(e) => Err(e),
                    Ok(n) => {
                        if empty {
                            self.push_node(n);
                        } else {
                            self.depth = 3;
                            self.node = Some(n);
                        }
                        Ok(())
                    },
                }
            },
            Section::Connections => {
                match read_conn(tag) {
                    Err(e) => Err(e),
                    Ok(c) => {
                        if empty {
                            self.push_conn(c);
                        } else {
                            self.depth = 3;
                            self.conn = Some(c);
                        }
                        Ok(())
                    },
                }
            },
            _ => {
                self.depth = if empty { 2 } else { 3 };
                Ok(())
            },
        }
    }

    fn open_child_tag(&mut self, tag: &XmlTag, empty: bool) -> (r: Result<(), NetFileError>)
        requires
            old(self).depth == 3,
        ensures
            match r {
                Ok(()) => open_child(reader_view(*old(self)), tag.name@, attrs_view(*tag), empty) == Ok::<ReadView, NetFileErrorView>(reader_view(*final(self))),
                Err(e) => open_child(reader_view(*old(self)), tag.name@, attrs_view(*tag), empty) == Err::<ReadView, NetFileErrorView>(error_view(e)),
            },
    {
        let inner: u64 = if empty { 3 } else { 4 };
        if self.node.is_some() {
            let n = self.node.take().unwrap();
            return match read_node_child(n, tag) {
                Err(e) => Err(e),
                Ok(m) => {
                    self.node = Some(m);
                    self.depth = inner;
                    Ok(())
                },
            };
        }
        if self.conn.is_some() {
            let c = self.conn.take().unwrap();
            return match read_conn_child(c, tag) {
                Err(e) => Err(e),
                Ok(m) => {
                    self.conn = Some(m);
                    self.depth = inner;
                    Ok(())
                },
            };
        }
        self.depth = inner;
        Ok(())
    }

    fn open_tag(&mut self, tag: &XmlTag, empty: bool) -> (r: Result<(), NetFileError>)
        ensures
            match r {
                Ok(()) => net_open(reader_view(*old(self)), tag.name@, attrs_view(*tag), empty) == Ok::<ReadView, NetFileErrorView>(reader_view(*final(self))),
                Err(e) => net_open(reader_view(*old(self)), tag.name@, attrs_view(*tag), empty) == Err::<ReadView, NetFileErrorView>(error_view(e)),
            },
    {
        if !empty && self.depth == 0xffff_ffff_ffff_ffff {
            return Err(NetFileError::TooDeep);
        }
        if self.depth == 0 {
            return self.open_root_tag(tag, empty);
        }
        if self.depth == 1 {
            return self.open_top_tag(tag, empty);
        }
        if self.depth == 2 {
            return self.open_entry_tag(tag, empty);
        }
        if self.depth == 3 {
            return self.open_child_tag(tag, empty);
        }
        if !empty {
            self.depth = self.depth + 1;
        }
        Ok(())
    }

    fn close_tag(&mut self) -> (r: Result<(), NetFileError>)
        ensures
            match r {
                Ok(()) => net_close(reader_view(*old(self))) == Ok::<ReadView, NetFileErrorView>(reader_view(*final(self))),
                Err(e) => net_close(reader_view(*old(self))) == Err::<ReadView, NetFileErrorView>(error_view(e)),
            },
    {
        if self.depth == 0 {
            return Ok(());
        }
        if self.depth == 1 {
            self.depth = 0;
            return self.finish();
        }
        if self.depth == 2 {
            self.depth = 1;
            self.section = Section::Outside;
            return Ok(());
        }
        if self.depth == 3 {
            let n = self.node.take();
            match n {
                Some(nn) => self.push_node(nn),
                None => {},
            }
            let c = self.conn.take();
            match c {
                Some(cc) => self.push_conn(cc),
                None => {},
            }
            self.depth = 2;
            return Ok(());
        }
        self.depth = self.depth - 1;
        Ok(())
    }

    /// Takes one event into account (see `net_step`).
    pub fn step(&mut self, event: &XmlEvent) -> (r: Result<(), NetFileError>)
        ensures
            match r {
                Ok(()) => net_step(reader_view(*old(self)), event_view(*event)) == Ok::<ReadView, NetFileErrorView>(reader_view(*final(self))),
                Err(e) => net_step(reader_view(*old(self)), event_view(*event)) == Err::<ReadView, NetFileErrorView>(error_view(e)),
            },
    {
        proof {
            reveal(net_step);
        }
        match event {
            XmlEvent::Start(t) => self.open_tag(t, false),
            XmlEvent::Empty(t) => self.open_tag(t, true),
            XmlEvent::End(_) => self.close_tag(),
            _ => Ok(()),
        }
    }
}

/// The nodes and connections of the GasLib network file `raw` (see `net_run` and the
/// module documentation), in document order, their numbers as the literals written.
pub fn parse_network_file(raw: &str) -> (r: Result<NetFile, NetFileError>)
    ensures
        match r {
            Ok(f) => net_run(read_initial(), xml_events(raw@))
                == Ok::<(Seq<NodeView>, Seq<ConnView>), NetFileErrorView>((nodes_view(f.nodes@), conns_view(f.connections@))),
            Err(e) => net_run(read_initial(), xml_events(raw@))
                == Err::<(Seq<NodeView>, Seq<ConnView>), NetFileErrorView>(error_view(e)),
        },
{
    let mut reader = xml_reader(raw);
    let mut st = NetReader::new();
    loop
        invariant
            well_ended(reader_events(reader)),
            !st.done,
            net_run(reader_view(st), reader_events(reader)) == net_run(read_initial(), xml_events(raw@)),
        decreases reader_events(reader).len(),
    {
        let ghost rest = reader_events(reader);
        let ev = next_event(&mut reader);
        match ev {
            XmlEvent::Eof => {
                return Err(NetFileError::UnexpectedEnd);
            },
            XmlEvent::Error(m) => {
                return Err(NetFileError::Xml(m));
            },
            _ => {
                assert(!crate::xml::is_terminal(rest[0]));
                assert(rest.len() > 1);
                match st.step(&ev) {
                    Err(e) => {
                        return Err(e);
                    },
                    Ok(()) => {},
                }
                if st.done {
                    return Ok(NetFile { nodes: st.nodes, connections: st.connections });
                }
                assert(well_ended(reader_events(reader))) by {
                    let r2 = reader_events(reader);
                    assert forall|i: int| 0 <= i < r2.len() - 1 implies !crate::xml::is_terminal(#[trigger] r2[i]) by {
                        assert(r2[i] == rest[i + 1]);
                    }
                }
            },
        }
    }
}

// ---------------------------------------------------------------------------
// The network
// ---------------------------------------------------------------------------

/// How a number literal is brought to the unit of its field: as written, divided by a
/// thousand (metres to kilometres), or multiplied by a thousand (metres to millimetres).
#[derive(Debug, Clone, Copy, PartialEq, Eq, Structural)]
pub enum Scale {
    AsWritten,
    Thousandth,
    Thousandfold,
}

/// A number literal and the scaling that brings it to its field's unit.
#[derive(Debug, Clone, PartialEq, Eq)]
pub struct Measure {
    pub literal: String,
    pub scale: Scale,
}

/// Where a compressor station's maximum ratio comes from: the number of serial stages the
/// station file gives it, or a fixed ratio (1.08 when the file does not list the station).
#[derive(Debug, Clone, PartialEq, Eq)]
pub enum RatioSource {
    Stages(usize),
    Literal(String),
}

pub enum RatioSourceView {
    Stages(nat),
    Literal(Seq<char>),
}

pub open spec fn ratio_source_view(r: RatioSource) -> RatioSourceView {
    match r {
        RatioSource::Stages(n) => RatioSourceView::Stages(n as nat),
        RatioSource::Literal(l) => RatioSourceView::Literal(l@),
    }
}

/// A node of the network: position, height [m], pressure bounds [bar] as literals, and
/// flow bounds as written (value and unit).
#[derive(Debug, Clone, PartialEq, Eq)]
pub struct NetworkNode {
    pub id: String,
    pub x: String,
    pub y: String,
    pub lon: Option<String>,
    pub lat: Option<String>,
    pub height_m: String,
    pub pressure_lower_bar: Option<String>,
    pub pressure_upper_bar: Option<String>,
    pub pressure_fixed_bar: Option<String>,
    pub flow_min: Option<NetValue>,
    pub flow_max: Option<NetValue>,
}

/// A connection of the network: its kind, whether it is open, its length [km], diameter
/// [mm] and roughness [mm], its flow bounds as written, and, for a compressor station,
/// where its maximum ratio comes from.
#[derive(Debug, Clone, PartialEq, Eq)]
pub struct NetworkPipe {
    pub id: String,
    pub from: String,
    pub to: String,
    pub kind: ConnectionKind,
    pub is_open: bool,
    pub length_km: Measure,
    pub diameter_mm: Measure,
    pub roughness_mm: Measure,
    pub flow_min: Option<NetValue>,
    pub flow_max: Option<NetValue>,
    pub compressor_ratio: Option<RatioSource>,
}

/// The network a file describes.
#[derive(Debug, Clone, PartialEq, Eq)]
pub struct GasLibNetwork {
    pub nodes: Vec<NetworkNode>,
    pub pipes: Vec<NetworkPipe>,
}

pub type MeasureView = (Seq<char>, Scale);

pub struct NetworkNodeView {
    pub id: Seq<char>,
    pub x: Seq<char>,
    pub y: Seq<char>,
    pub lon: Option<Seq<char>>,
    pub lat: Option<Seq<char>>,
    pub height_m: Seq<char>,
    pub pressure_lower_bar: Option<Seq<char>>,
    pub pressure_upper_bar: Option<Seq<char>>,
    pub pressure_fixed_bar: Option<Seq<char>>,
    pub flow_min: Option<ValueView>,
    pub flow_max: Option<ValueView>,
}

pub struct NetworkPipeView {
    pub id: Seq<char>,
    pub from: Seq<char>,
    pub to: Seq<char>,
    pub kind: ConnectionKind,
    pub is_open: bool,
    pub length_km: MeasureView,
    pub diameter_mm: MeasureView,
    pub roughness_mm: MeasureView,
    pub flow_min: Option<ValueView>,
    pub flow_max: Option<ValueView>,
    pub compressor_ratio: Option<RatioSourceView>,
}

pub open spec fn measure_view(m: Measure) -> MeasureView {
    (m.literal@, m.scale)
}

pub open spec fn network_node_view(n: NetworkNode) -> NetworkNodeView {
    NetworkNodeView {
        id: n.id@,
        x: n.x@,
        y: n.y@,
        lon: text_view(n.lon),
        lat: text_view(n.lat),
        height_m: n.height_m@,
        pressure_lower_bar: text_view(n.pressure_lower_bar),
        pressure_upper_bar: text_view(n.pressure_upper_bar),
        pressure_fixed_bar: text_view(n.pressure_fixed_bar),
        flow_min: opt_value_view(n.flow_min),
        flow_max: opt_value_view(n.flow_max),
    }
}

pub open spec fn network_pipe_view(p: NetworkPipe) -> NetworkPipeView {
    NetworkPipeView {
        id: p.id@,
        from: p.from@,
        to: p.to@,
        kind: p.kind,
        is_open: p.is_open,
        length_km: measure_view(p.length_km),
        diameter_mm: measure_view(p.diameter_mm),
        roughness_mm: measure_view(p.roughness_mm),
        flow_min: opt_value_view(p.flow_min),
        flow_max: opt_value_view(p.flow_max),
        compressor_ratio: match p.compressor_ratio {
            Some(r) => Some(ratio_source_view(r)),
            None => None,
        },
    }
}

/// The kind of arc an element stands for: a control valve is a short pipe, passing gas.
pub open spec fn kind_of(el: ConnectionElement) -> ConnectionKind {
    match el {
        ConnectionElement::Pipe => ConnectionKind::Pipe,
        ConnectionElement::Valve => ConnectionKind::Valve,
        ConnectionElement::ShortPipe => ConnectionKind::ShortPipe,
        ConnectionElement::Resistor => ConnectionKind::Resistor,
        ConnectionElement::ControlValve => ConnectionKind::ShortPipe,
        ConnectionElement::CompressorStation => ConnectionKind::CompressorStation,
    }
}

/// Length [km], diameter [mm] and roughness [mm] of an arc of `kind` that gives none: a
/// pipe's, or those of a nearly free passage.
pub open spec fn default_literals(kind: ConnectionKind) -> (Seq<char>, Seq<char>, Seq<char>) {
    if kind == ConnectionKind::Pipe {
        ("1.0"@, "500.0"@, "0.012"@)
    } else {
        ("0.001"@, "1000.0"@, "0.012"@)
    }
}

/// A length element in kilometres: a value in `m` is divided by a thousand.
pub open spec fn km_of(v: ValueView) -> MeasureView {
    if v.unit == Some("m"@) {
        (v.value, Scale::Thousandth)
    } else {
        (v.value, Scale::AsWritten)
    }
}

/// A diameter or roughness element in millimetres: a value in `m` is multiplied by a
/// thousand.
pub open spec fn mm_of(v: ValueView) -> MeasureView {
    if v.unit == Some("m"@) {
        (v.value, Scale::Thousandfold)
    } else {
        (v.value, Scale::AsWritten)
    }
}

/// The length: the element, else the attribute, else the default.
pub open spec fn pipe_length(c: ConnView) -> MeasureView {
    match c.length {
        Some(v) => km_of(v),
        None => match c.length_attr {
            Some(a) => (a, Scale::AsWritten),
            None => (default_literals(kind_of(c.element)).0, Scale::AsWritten),
        },
    }
}

/// The diameter: the element, else the attribute, else the default.
pub open spec fn pipe_diameter(c: ConnView) -> MeasureView {
    match c.diameter {
        Some(v) => mm_of(v),
        None => match c.diameter_attr {
            Some(a) => (a, Scale::AsWritten),
            None => (default_literals(kind_of(c.element)).1, Scale::AsWritten),
        },
    }
}

/// The roughness: the element, else the attribute, else the drag factor element's value,
/// else the drag factor attribute, else the default.
pub open spec fn pipe_roughness(c: ConnView) -> MeasureView {
    match c.roughness {
        Some(v) => mm_of(v),
        None => match c.roughness_attr {
            Some(a) => (a, Scale::AsWritten),
            None => match c.drag_factor {
                Some(v) => (v.value, Scale::AsWritten),
                None => match c.drag_factor_attr {
                    Some(a) => (a, Scale::AsWritten),
                    None => (default_literals(kind_of(c.element)).2, Scale::AsWritten),
                },
            },
        },
    }
}

/// A flow bound that reads as a number of magnitude below `1e-12`.
pub open spec fn negligible_bound(v: Option<ValueView>) -> bool {
    match v {
        Some(b) => is_float_literal(b.value) && is_negligible_literal(b.value),
        None => false,
    }
}

/// A valve is closed when both its flow bounds are given and negligible; any other arc
/// is open.
pub open spec fn arc_open(c: ConnView) -> bool {
    !(kind_of(c.element) == ConnectionKind::Valve && negligible_bound(c.flow_min) && negligible_bound(c.flow_max))
}

/// The stage count that `table` gives station `id`: its last entry for that station.
pub open spec fn stages_of(table: Seq<StageEntry>, id: Seq<char>) -> Option<nat>
    decreases table.len(),
{
    if table.len() == 0 {
        None
    } else if table.last().0 == id {
        Some(table.last().1)
    } else {
        stages_of(table.drop_last(), id)
    }
}

/// A compressor station's ratio comes from its stage count in `table`, or is 1.08 when the
/// table does not list it; other arcs have none.
pub open spec fn ratio_source(kind: ConnectionKind, id: Seq<char>, table: Seq<StageEntry>) -> Option<RatioSourceView> {
    if kind == ConnectionKind::CompressorStation {
        Some(
            match stages_of(table, id) {
                Some(n) => RatioSourceView::Stages(n),
                None => RatioSourceView::Literal("1.08"@),
            },
        )
    } else {
        None
    }
}

/// The arc a connection describes, compressor stations looked up in the stage table.
pub open spec fn network_pipe_of(c: ConnView, table: Seq<StageEntry>) -> NetworkPipeView {
    NetworkPipeView {
        id: c.id,
        from: c.from,
        to: c.to,
        kind: kind_of(c.element),
        is_open: arc_open(c),
        length_km: pipe_length(c),
        diameter_mm: pipe_diameter(c),
        roughness_mm: pipe_roughness(c),
        flow_min: c.flow_min,
        flow_max: c.flow_max,
        compressor_ratio: ratio_source(kind_of(c.element), c.id, table),
    }
}

pub open spec fn value_of_opt(v: Option<ValueView>) -> Option<Seq<char>> {
    match v {
        Some(x) => Some(x.value),
        None => None,
    }
}

/// The height: the element, else the attribute, else zero.
pub open spec fn node_height(n: NodeView) -> Seq<char> {
    match n.height {
        Some(h) => h.value,
        None => match n.height_attr {
            Some(a) => a,
            None => "0.0"@,
        },
    }
}

/// The lower pressure bound: the `pressure` element's `lower`, else `pressureMin`.
pub open spec fn node_lower(n: NodeView) -> Option<Seq<char>> {
    match n.pressure {
        Some(b) if b.lower is Some => b.lower,
        _ => value_of_opt(n.pressure_min),
    }
}

/// The upper pressure bound: the `pressure` element's `upper`, else `pressureMax`.
pub open spec fn node_upper(n: NodeView) -> Option<Seq<char>> {
    match n.pressure {
        Some(b) if b.upper is Some => b.upper,
        _ => value_of_opt(n.pressure_max),
    }
}

/// The imposed pressure: the `pressure` element's `value`.
pub open spec fn node_fixed(n: NodeView) -> Option<Seq<char>> {
    match n.pressure {
        Some(b) => b.value,
        None => None,
    }
}

pub open spec fn network_node_of(n: NodeView) -> NetworkNodeView {
    NetworkNodeView {
        id: n.id,
        x: n.x,
        y: n.y,
        lon: n.lon,
        lat: n.lat,
        height_m: node_height(n),
        pressure_lower_bar: node_lower(n),
        pressure_upper_bar: node_upper(n),
        pressure_fixed_bar: node_fixed(n),
        flow_min: n.flow_min,
        flow_max: n.flow_max,
    }
}

fn clone_value(o: &Option<NetValue>) -> (r: Option<NetValue>)
    ensures
        opt_value_view(r) == opt_value_view(*o),
{
    match o {
        Some(v) => Some(NetValue { value: v.value.clone(), unit: clone_text(&v.unit) }),
        None => None,
    }
}

fn find_stages(stages: &Vec<(String, usize)>, id: &str) -> (r: Option<usize>)
    ensures
        match r {
            Some(n) => stages_of(crate::stages::entries_view(stages@), id@) == Some(n as nat),
            None => stages_of(crate::stages::entries_view(stages@), id@) is None,
        },
{
    let ghost ev = crate::stages::entries_view(stages@);
    let mut k = stages.len();
    assert(ev.take(k as int) =~= ev);
    while k > 0
        invariant
            ev == crate::stages::entries_view(stages@),
            k <= stages@.len(),
            stages_of(ev, id@) == stages_of(ev.take(k as int), id@),
        decreases k,
    {
        assert(ev.take(k as int).last() == ev[k - 1]);
        assert(ev.take(k as int).drop_last() =~= ev.take(k - 1));
        if str_eq(stages[k - 1].0.as_str(), id) {
            return Some(stages[k - 1].1);
        }
        k = k - 1;
    }
    None
}

fn clone_text(o: &Option<String>) -> (r: Option<String>)
    ensures
        text_view(r) == text_view(*o),
{
    match o {
        Some(s) => Some(s.clone()),
        None => None,
    }
}

fn is_metres(v: &NetValue) -> (r: bool)
    ensures
        r == (value_view(*v).unit == Some("m"@)),
{
    match &v.unit {
        Some(u) => {
            let r = str_eq(u.as_str(), "m");
            proof {
                reveal_strlit("m");
            }
            r
        },
        None => false,
    }
}

fn lit(s: &str) -> (m: Measure)
    ensures
        measure_view(m) == (s@, Scale::AsWritten),
{
    Measure { literal: s.to_string(), scale: Scale::AsWritten }
}

fn kind_of_element(el: ConnectionElement) -> (k: ConnectionKind)
    ensures
        k == kind_of(el),
{
    match el {
        ConnectionElement::Pipe => ConnectionKind::Pipe,
        ConnectionElement::Valve => ConnectionKind::Valve,
        ConnectionElement::ShortPipe => ConnectionKind::ShortPipe,
        ConnectionElement::Resistor => ConnectionKind::Resistor,
        ConnectionElement::ControlValve => ConnectionKind::ShortPipe,
        ConnectionElement::CompressorStation => ConnectionKind::CompressorStation,
    }
}

fn negligible(v: &Option<NetValue>) -> (r: bool)
    ensures
        r == negligible_bound(opt_value_view(*v)),
{
    match v {
        Some(b) => {
            let c = chars_of(b.value.as_str());
            if float_literal_ok(&c) {
                negligible_literal(&c)
            } else {
                false
            }
        },
        None => false,
    }
}

/// The arc that connection `c` describes (see `network_pipe_of`), compressor stations
/// looked up in `stages`.
pub fn network_pipe(c: &NetConnection, stages: &Vec<(String, usize)>) -> (p: NetworkPipe)
    ensures
        network_pipe_view(p) == network_pipe_of(conn_view(*c), crate::stages::entries_view(stages@)),
{
    let kind = kind_of_element(c.element);
    let is_pipe = match kind {
        ConnectionKind::Pipe => true,
        _ => false,
    };
    let is_valve = match kind {
        ConnectionKind::Valve => true,
        _ => false,
    };
    let length_km = match &c.length {
        Some(v) => Measure {
            literal: v.value.clone(),
            scale: if is_metres(v) { Scale::Thousandth } else { Scale::AsWritten },
        },
        None => match &c.length_attr {
            Some(a) => Measure { literal: a.clone(), scale: Scale::AsWritten },
            None => if is_pipe { lit("1.0") } else { lit("0.001") },
        },
    };
    let diameter_mm = match &c.diameter {
        Some(v) => Measure {
            literal: v.value.clone(),
            scale: if is_metres(v) { Scale::Thousandfold } else { Scale::AsWritten },
        },
        None => match &c.diameter_attr {
            Some(a) => Measure { literal: a.clone(), scale: Scale::AsWritten },
            None => if is_pipe { lit("500.0") } else { lit("1000.0") },
        },
    };
    let roughness_mm = match &c.roughness {
        Some(v) => Measure {
            literal: v.value.clone(),
            scale: if is_metres(v) { Scale::Thousandfold } else { Scale::AsWritten },
        },
        None => match &c.roughness_attr {
            Some(a) => Measure { literal: a.clone(), scale: Scale::AsWritten },
            None => match &c.drag_factor {
                Some(v) => Measure { literal: v.value.clone(), scale: Scale::AsWritten },
                None => match &c.drag_factor_attr {
                    Some(a) => Measure { literal: a.clone(), scale: Scale::AsWritten },
                    None => lit("0.012"),
                },
            },
        },
    };
    let closed = is_valve && negligible(&c.flow_min) && negligible(&c.flow_max);
    let is_station = match kind {
        ConnectionKind::CompressorStation => true,
        _ => false,
    };
    let compressor_ratio = if is_station {
        match find_stages(stages, c.id.as_str()) {
            Some(n) => Some(RatioSource::Stages(n)),
            None => Some(RatioSource::Literal("1.08".to_string())),
        }
    } else {
        None
    };
    NetworkPipe {
        id: c.id.clone(),
        from: c.from.clone(),
        to: c.to.clone(),
        kind,
        is_open: !closed,
        length_km,
        diameter_mm,
        roughness_mm,
        flow_min: clone_value(&c.flow_min),
        flow_max: clone_value(&c.flow_max),
        compressor_ratio,
    }
}

/// The node that `n` describes (see `network_node_of`).
pub fn network_node(n: &NetNode) -> (r: NetworkNode)
    ensures
        network_node_view(r) == network_node_of(node_view(*n)),
{
    let height_m = match &n.height {
        Some(h) => h.value.clone(),
        None => match &n.height_attr {
            Some(a) => a.clone(),
            None => "0.0".to_string(),
        },
    };
    let from_min = match &n.pressure_min {
        Some(v) => Some(v.value.clone()),
        None => None,
    };
    let from_max = match &n.pressure_max {
        Some(v) => Some(v.value.clone()),
        None => None,
    };
    let (pressure_lower_bar, pressure_upper_bar, pressure_fixed_bar) = match &n.pressure {
        Some(b) => (
            if b.lower.is_some() { clone_text(&b.lower) } else { from_min },
            if b.upper.is_some() { clone_text(&b.upper) } else { from_max },
            clone_text(&b.value),
        ),
        None => (from_min, from_max, None),
    };
    NetworkNode {
        id: n.id.clone(),
        x: n.x.clone(),
        y: n.y.clone(),
        lon: clone_text(&n.lon),
        lat: clone_text(&n.lat),
        height_m,
        pressure_lower_bar,
        pressure_upper_bar,
        pressure_fixed_bar,
        flow_min: clone_value(&n.flow_min),
        flow_max: clone_value(&n.flow_max),
    }
}

pub open spec fn network_nodes_view(v: Seq<NetworkNode>) -> Seq<NetworkNodeView> {
    v.map_values(|n: NetworkNode| network_node_view(n))
}

pub open spec fn network_pipes_view(v: Seq<NetworkPipe>) -> Seq<NetworkPipeView> {
    v.map_values(|p: NetworkPipe| network_pipe_view(p))
}

/// The network that the nodes and connections of `f` describe, in their order, compressor
/// stations looked up in `stages`.
pub fn build_network(f: &NetFile, stages: &Vec<(String, usize)>) -> (g: GasLibNetwork)
    ensures
        network_nodes_view(g.nodes@) == nodes_view(f.nodes@).map_values(|n: NodeView| network_node_of(n)),
        network_pipes_view(g.pipes@) == conns_view(f.connections@).map_values(
            |c: ConnView| network_pipe_of(c, crate::stages::entries_view(stages@)),
        ),
{
    let ghost table = crate::stages::entries_view(stages@);
    let mut nodes: Vec<NetworkNode> = Vec::new();
    let mut i: usize = 0;
    while i < f.nodes.len()
        invariant
            i <= f.nodes@.len(),
            network_nodes_view(nodes@) == nodes_view(f.nodes@.take(i as int)).map_values(|n: NodeView| network_node_of(n)),
        decreases f.nodes@.len() - i,
    {
        let ghost before = nodes@;
        nodes.push(network_node(&f.nodes[i]));
        assert(f.nodes@.take(i + 1) =~= f.nodes@.take(i as int).push(f.nodes@[i as int]));
        assert(network_nodes_view(nodes@) =~= network_nodes_view(before).push(network_node_of(node_view(f.nodes@[i as int]))));
        assert(nodes_view(f.nodes@.take(i + 1)).map_values(|n: NodeView| network_node_of(n))
            =~= nodes_view(f.nodes@.take(i as int)).map_values(|n: NodeView| network_node_of(n)).push(network_node_of(node_view(f.nodes@[i as int]))));
        i = i + 1;
    }
    assert(f.nodes@.take(i as int) =~= f.nodes@);
    let mut pipes: Vec<NetworkPipe> = Vec::new();
    let mut j: usize = 0;
    while j < f.connections.len()
        invariant
            j <= f.connections@.len(),
            table == crate::stages::entries_view(stages@),
            network_pipes_view(pipes@) == conns_view(f.connections@.take(j as int)).map_values(|c: ConnView| network_pipe_of(c, table)),
        decreases f.connections@.len() - j,
    {
        let ghost before = pipes@;
        pipes.push(network_pipe(&f.connections[j], stages));
        assert(f.connections@.take(j + 1) =~= f.connections@.take(j as int).push(f.connections@[j as int]));
        assert(network_pipes_view(pipes@) =~= network_pipes_view(before).push(network_pipe_of(conn_view(f.connections@[j as int]), table)));
        assert(conns_view(f.connections@.take(j + 1)).map_values(|c: ConnView| network_pipe_of(c, table))
            =~= conns_view(f.connections@.take(j as int)).map_values(|c: ConnView| network_pipe_of(c, table)).push(network_pipe_of(conn_view(f.connections@[j as int]), table)));
        j = j + 1;
    }
    assert(f.connections@.take(j as int) =~= f.connections@);
    GasLibNetwork { nodes, pipes }
}

/// The stage table of a station file: the stations' serial stage counts (see
/// `parse_station_stages_from_str`); empty when there is no file or it cannot be read.
pub open spec fn stage_table(stations: Option<Seq<char>>) -> Seq<StageEntry> {
    match stations {
        Some(t) => match crate::stages::stages_run((Seq::empty(), None), xml_events(t)) {
            Ok(v) => v,
            Err(_) => Seq::empty(),
        },
        None => Seq::empty(),
    }
}

/// The network of the GasLib file `raw`: read (see `parse_network_file`), then built (see
/// `network_node_of` and `network_pipe_of`), compressor stations looked up in the stage
/// table of the station file `stations` beside it, if any (see `stage_table`).
pub fn load_network_from_str(raw: &str, stations: Option<&str>) -> (r: Result<GasLibNetwork, NetFileError>)
    ensures
        match net_run(read_initial(), xml_events(raw@)) {
            Ok((ns, cs)) => r matches Ok(g)
                && network_nodes_view(g.nodes@) == ns.map_values(|n: NodeView| network_node_of(n))
                && network_pipes_view(g.pipes@) == cs.map_values(
                    |c: ConnView|
                        network_pipe_of(
                            c,
                            stage_table(
                                match stations {
                                    Some(t) => Some(t@),
                                    None => None,
                                },
                            ),
                        ),
                ),
            Err(e) => r matches Err(x) && error_view(x) == e,
        },
{
    let stages: Vec<(String, usize)> = match stations {
        Some(t) => match crate::stages::parse_station_stages_from_str(t) {
            Ok(v) => v,
            Err(_) => Vec::new(),
        },
        None => Vec::new(),
    };
    assert(crate::stages::entries_view(stages@) == stage_table(
        match stations {
            Some(t) => Some(t@),
            None => None,
        },
    ));
    match parse_network_file(raw) {
        Ok(f) => Ok(build_network(&f, &stages)),
        Err(e) => Err(e),
    }
}

// ---------------------------------------------------------------------------
// What is read is a number
// ---------------------------------------------------------------------------

pub open spec fn lit_ok(o: Option<Seq<char>>) -> bool {
    match o {
        Some(t) => is_float_literal(t),
        None => true,
    }
}

pub open spec fn val_ok(o: Option<ValueView>) -> bool {
    match o {
        Some(v) => is_float_literal(v.value),
        None => true,
    }
}

/// Every number of a node is a literal that `f64::from_str` accepts.
pub open spec fn node_numbers_ok(n: NodeView) -> bool {
    &&& is_float_literal(n.x)
    &&& is_float_literal(n.y)
    &&& lit_ok(n.lon)
    &&& lit_ok(n.lat)
    &&& lit_ok(n.height_attr)
    &&& val_ok(n.height)
    &&& match n.pressure {
        Some(b) => lit_ok(b.lower) && lit_ok(b.upper) && lit_ok(b.value),
        None => true,
    }
    &&& val_ok(n.pressure_min)
    &&& val_ok(n.pressure_max)
    &&& val_ok(n.flow_min)
    &&& val_ok(n.flow_max)
}

/// Every number of a connection is a literal that `f64::from_str` accepts.
pub open spec fn conn_numbers_ok(c: ConnView) -> bool {
    &&& lit_ok(c.length_attr)
    &&& lit_ok(c.diameter_attr)
    &&& lit_ok(c.roughness_attr)
    &&& lit_ok(c.drag_factor_attr)
    &&& val_ok(c.length)
    &&& val_ok(c.diameter)
    &&& val_ok(c.roughness)
    &&& val_ok(c.flow_min)
    &&& val_ok(c.flow_max)
    &&& val_ok(c.drag_factor)
}

pub open spec fn state_numbers_ok(st: ReadView) -> bool {
    &&& forall|i: int| 0 <= i < st.nodes.len() ==> node_numbers_ok(#[trigger] st.nodes[i])
    &&& forall|i: int| 0 <= i < st.connections.len() ==> conn_numbers_ok(#[trigger] st.connections[i])
    &&& match st.node {
        Some(n) => node_numbers_ok(n),
        None => true,
    }
    &&& match st.conn {
        Some(c) => conn_numbers_ok(c),
        None => true,
    }
}

proof fn lemma_node_of_numbers(attrs: Seq<AttrView>)
    ensures
        node_of(attrs) matches Ok(n) ==> node_numbers_ok(n),
{
}

proof fn lemma_conn_of_numbers(name: Seq<char>, attrs: Seq<AttrView>)
    ensures
        conn_of(name, attrs) matches Ok(c) ==> conn_numbers_ok(c),
{
}

proof fn lemma_node_child_numbers(n: NodeView, name: Seq<char>, attrs: Seq<AttrView>)
    requires
        node_numbers_ok(n),
    ensures
        node_child(n, name, attrs) matches Ok(m) ==> node_numbers_ok(m),
{
}

proof fn lemma_conn_child_numbers(c: ConnView, name: Seq<char>, attrs: Seq<AttrView>)
    requires
        conn_numbers_ok(c),
    ensures
        conn_child(c, name, attrs) matches Ok(m) ==> conn_numbers_ok(m),
{
}

#[verifier::spinoff_prover]
#[verifier::rlimit(40)]
proof fn lemma_pushed_numbers(st: ReadView, s2: ReadView)
    requires
        state_numbers_ok(st),
        s2.nodes == st.nodes || (s2.nodes.len() == st.nodes.len() + 1 && s2.nodes.drop_last() == st.nodes
            && node_numbers_ok(s2.nodes.last())),
        s2.connections == st.connections || (s2.connections.len() == st.connections.len() + 1
            && s2.connections.drop_last() == st.connections && conn_numbers_ok(s2.connections.last())),
        s2.node matches Some(n) ==> node_numbers_ok(n),
        s2.conn matches Some(c) ==> conn_numbers_ok(c),
    ensures
        state_numbers_ok(s2),
{
    assert forall|i: int| 0 <= i < s2.nodes.len() implies node_numbers_ok(#[trigger] s2.nodes[i]) by {
        if i < st.nodes.len() && s2.nodes != st.nodes {
            assert(s2.nodes.drop_last()[i] == s2.nodes[i]);
        }
    }
    assert forall|i: int| 0 <= i < s2.connections.len() implies conn_numbers_ok(#[trigger] s2.connections[i]) by {
        if i < st.connections.len() && s2.connections != st.connections {
            assert(s2.connections.drop_last()[i] == s2.connections[i]);
        }
    }
}

proof fn lemma_open_numbers(st: ReadView, name: Seq<char>, attrs: Seq<AttrView>, empty: bool)
    requires
        state_numbers_ok(st),
    ensures
        net_open(st, name, attrs, empty) matches Ok(s2) ==> state_numbers_ok(s2),
{
    if let Ok(s2) = net_open(st, name, attrs, empty) {
        if st.depth == 2 {
            lemma_node_of_numbers(attrs);
            lemma_conn_of_numbers(name, attrs);
            if st.section == Section::Nodes && empty {
                assert(s2.nodes.drop_last() =~= st.nodes);
            }
            if st.section == Section::Connections && empty {
                assert(s2.connections.drop_last() =~= st.connections);
            }
            lemma_pushed_numbers(st, s2);
        } else if st.depth == 3 {
            if let Some(n) = st.node {
                lemma_node_child_numbers(n, name, attrs);
            } else if let Some(c) = st.conn {
                lemma_conn_child_numbers(c, name, attrs);
            }
            lemma_pushed_numbers(st, s2);
        } else {
            lemma_pushed_numbers(st, s2);
        }
    }
}

proof fn lemma_close_numbers(st: ReadView)
    requires
        state_numbers_ok(st),
    ensures
        net_close(st) matches Ok(s2) ==> state_numbers_ok(s2),
{
    if let Ok(s2) = net_close(st) {
        if st.depth == 3 {
            if st.node is Some {
                assert(s2.nodes.drop_last() =~= st.nodes);
            }
            if st.conn is Some {
                assert(s2.connections.drop_last() =~= st.connections);
            }
        }
        lemma_pushed_numbers(st, s2);
    }
}

proof fn lemma_step_keeps_numbers(st: ReadView, e: XmlEventView)
    requires
        state_numbers_ok(st),
    ensures
        net_step(st, e) matches Ok(s2) ==> state_numbers_ok(s2),
{
    reveal(net_step);
    match e {
        XmlEventView::Start(n, a) => lemma_open_numbers(st, n, a, false),
        XmlEventView::Empty(n, a) => lemma_open_numbers(st, n, a, true),
        XmlEventView::End(_) => lemma_close_numbers(st),
        _ => {},
    }
}

proof fn lemma_run_numbers(st: ReadView, events: Seq<XmlEventView>)
    requires
        state_numbers_ok(st),
    ensures
        net_run(st, events) matches Ok((ns, cs)) ==> (forall|i: int| 0 <= i < ns.len() ==> node_numbers_ok(#[trigger] ns[i]))
            && (forall|i: int| 0 <= i < cs.len() ==> conn_numbers_ok(#[trigger] cs[i])),
    decreases events.len(),
{
    if events.len() > 0 {
        match events[0] {
            XmlEventView::Eof => {},
            XmlEventView::Error(_) => {},
            e => {
                lemma_step_keeps_numbers(st, e);
                match net_step(st, e) {
                    Ok(s2) => {
                        if !s2.done {
                            lemma_run_numbers(s2, events.drop_first());
                        }
                    },
                    Err(_) => {},
                }
            },
        }
    }
}

/// Every number a network file is read with is a literal that `f64::from_str` accepts.
pub proof fn lemma_read_numbers_are_literals(raw: Seq<char>)
    ensures
        net_run(read_initial(), xml_events(raw)) matches Ok((ns, cs)) ==> (forall|i: int| 0 <= i < ns.len() ==> node_numbers_ok(#[trigger] ns[i]))
            && (forall|i: int| 0 <= i < cs.len() ==> conn_numbers_ok(#[trigger] cs[i])),
{
    lemma_run_numbers(read_initial(), xml_events(raw));
}

/// A run of digits with at most one point, starting with a digit, is a number literal.
proof fn lemma_plain_decimal(t: Seq<char>)
    requires
        t.len() >= 1,
        crate::decimal::is_digit(t[0]),
        forall|i: int| 0 <= i < t.len() ==> crate::decimal::is_digit(#[trigger] t[i]) || t[i] == '.',
        forall|i: int, j: int| 0 <= i < j < t.len() ==> !(#[trigger] t[i] == '.' && #[trigger] t[j] == '.'),
    ensures
        is_float_literal(t),
{
    let l = crate::text::ascii_lower(t);
    assert(l =~= t) by {
        assert forall|i: int| 0 <= i < t.len() implies l[i] == t[i] by {
            assert(crate::decimal::is_digit(t[i]) || t[i] == '.');
        }
    }
    assert(crate::decimal::unsigned_part(t) == t);
    assert(forall|i: int| 0 <= i < t.len() ==> #[trigger] t[i] != 'e');
    assert(crate::decimal::is_mantissa(t));
}

proof fn lemma_defaults_are_literals()
    ensures
        is_float_literal("0.0"@),
        is_float_literal("1.0"@),
        is_float_literal("500.0"@),
        is_float_literal("0.012"@),
        is_float_literal("0.001"@),
        is_float_literal("1000.0"@),
        is_float_literal("1.08"@),
{
    reveal_strlit("0.0");
    reveal_strlit("1.0");
    reveal_strlit("500.0");
    reveal_strlit("0.012");
    reveal_strlit("0.001");
    reveal_strlit("1000.0");
    reveal_strlit("1.08");
    lemma_plain_decimal("1.08"@);
    lemma_plain_decimal("0.0"@);
    lemma_plain_decimal("1.0"@);
    lemma_plain_decimal("500.0"@);
    lemma_plain_decimal("0.012"@);
    lemma_plain_decimal("0.001"@);
    lemma_plain_decimal("1000.0"@);
}

/// Every number of a network node (its flow bounds among them) is a literal that
/// `f64::from_str` accepts.
pub open spec fn network_node_numbers_ok(n: NetworkNodeView) -> bool {
    &&& is_float_literal(n.x)
    &&& is_float_literal(n.y)
    &&& is_float_literal(n.height_m)
    &&& lit_ok(n.lon)
    &&& lit_ok(n.lat)
    &&& lit_ok(n.pressure_lower_bar)
    &&& lit_ok(n.pressure_upper_bar)
    &&& lit_ok(n.pressure_fixed_bar)
    &&& val_ok(n.flow_min)
    &&& val_ok(n.flow_max)
}

/// Every measure of a network arc, its flow bounds and its fixed ratio are literals that
/// `f64::from_str` accepts.
pub open spec fn network_pipe_numbers_ok(p: NetworkPipeView) -> bool {
    &&& is_float_literal(p.length_km.0)
    &&& is_float_literal(p.diameter_mm.0)
    &&& is_float_literal(p.roughness_mm.0)
    &&& val_ok(p.flow_min)
    &&& val_ok(p.flow_max)
    &&& (p.compressor_ratio matches Some(RatioSourceView::Literal(l)) ==> is_float_literal(l))
}

proof fn lemma_network_node_numbers(n: NodeView)
    requires
        node_numbers_ok(n),
    ensures
        network_node_numbers_ok(network_node_of(n)),
{
    lemma_defaults_are_literals();
}

proof fn lemma_network_pipe_numbers(c: ConnView, table: Seq<StageEntry>)
    requires
        conn_numbers_ok(c),
    ensures
        network_pipe_numbers_ok(network_pipe_of(c, table)),
{
    lemma_defaults_are_literals();
}

/// Every number of a loaded network (the defaults among them) is a literal that
/// `f64::from_str` accepts.
pub proof fn lemma_loaded_numbers_are_literals(raw: Seq<char>, table: Seq<StageEntry>)
    ensures
        net_run(read_initial(), xml_events(raw)) matches Ok((ns, cs)) ==> (forall|i: int| 0 <= i < ns.len() ==> network_node_numbers_ok(network_node_of(#[trigger] ns[i])))
            && (forall|i: int| 0 <= i < cs.len() ==> network_pipe_numbers_ok(network_pipe_of(#[trigger] cs[i], table))),
{
    lemma_read_numbers_are_literals(raw);
    if let Ok((ns, cs)) = net_run(read_initial(), xml_events(raw)) {
        assert forall|i: int| 0 <= i < ns.len() implies network_node_numbers_ok(network_node_of(#[trigger] ns[i])) by {
            lemma_network_node_numbers(ns[i]);
        }
        assert forall|i: int| 0 <= i < cs.len() implies network_pipe_numbers_ok(network_pipe_of(#[trigger] cs[i], table)) by {
            lemma_network_pipe_numbers(cs[i], table);
        }
    }
}

/// How an arc's measures come out of its connection, unit by unit: a `length` element in
/// metres is divided by a thousand (to kilometres), a `diameter` or `roughness` element in
/// metres is multiplied by a thousand (to millimetres), and an element in any other unit, or
/// in none, is taken as written; an element wins over the attribute, and an attribute is
/// taken as written.
pub proof fn lemma_pipe_units(c: ConnView, table: Seq<StageEntry>)
    ensures
        c.length matches Some(v) ==> network_pipe_of(c, table).length_km == (
            v.value,
            if v.unit == Some("m"@) { Scale::Thousandth } else { Scale::AsWritten },
        ),
        c.diameter matches Some(v) ==> network_pipe_of(c, table).diameter_mm == (
            v.value,
            if v.unit == Some("m"@) { Scale::Thousandfold } else { Scale::AsWritten },
        ),
        c.roughness matches Some(v) ==> network_pipe_of(c, table).roughness_mm == (
            v.value,
            if v.unit == Some("m"@) { Scale::Thousandfold } else { Scale::AsWritten },
        ),
        c.length is None && c.length_attr is Some ==> network_pipe_of(c, table).length_km == (
            c.length_attr->0,
            Scale::AsWritten,
        ),
        c.diameter is None && c.diameter_attr is Some ==> network_pipe_of(c, table).diameter_mm == (
            c.diameter_attr->0,
            Scale::AsWritten,
        ),
        c.roughness is None && c.roughness_attr is Some ==> network_pipe_of(c, table).roughness_mm
            == (c.roughness_attr->0, Scale::AsWritten),
{
}

} // verus!
