//! Reading XML documents with quick-xml: the event stream as plain values, local names,
//! and attribute lookup.

use vstd::prelude::*;

use quick_xml::events::{BytesStart, Event};
use quick_xml::Reader;

use crate::xml::XmlEvent::{Empty, End, Eof, Error, Other, Start};

use crate::text::{ascii_lower, chars_of, lower_chars_of, string_of_range};

verus! {

#[verifier::external_type_specification]
#[verifier::external_body]
#[verifier::reject_recursive_types(R)]
pub struct ExXmlReader<R>(Reader<R>);

/// A start or empty-element tag: its qualified name and its attributes in order, each as
/// its qualified name and its value not yet unescaped; an attribute the reader could not
/// make out is `None`.
#[derive(Debug, Clone, PartialEq, Eq)]
pub struct XmlTag {
    pub name: String,
    pub attrs: Vec<Option<(String, String)>>,
}

/// What reading the next piece of a document gives.
#[derive(Debug, Clone, PartialEq, Eq)]
pub enum XmlEvent {
    Start(XmlTag),
    Empty(XmlTag),
    End(String),
    /// Anything else: text, comments, declarations.
    Other,
    Eof,
    Error(String),
}

pub type AttrView = Option<(Seq<char>, Seq<char>)>;

/// The events as plain sequences.
pub enum XmlEventView {
    Start(Seq<char>, Seq<AttrView>),
    Empty(Seq<char>, Seq<AttrView>),
    End(Seq<char>),
    Other,
    Eof,
    Error(Seq<char>),
}

pub open spec fn attr_view(a: Option<(String, String)>) -> AttrView {
    match a {
        Some((k, v)) => Some((k@, v@)),
        None => None,
    }
}

pub open spec fn attrs_view(t: XmlTag) -> Seq<AttrView> {
    t.attrs@.map_values(|a: Option<(String, String)>| attr_view(a))
}

pub open spec fn event_view(e: XmlEvent) -> XmlEventView {
    match e {
        XmlEvent::Start(t) => XmlEventView::Start(t.name@, attrs_view(t)),
        XmlEvent::Empty(t) => XmlEventView::Empty(t.name@, attrs_view(t)),
        XmlEvent::End(n) => XmlEventView::End(n@),
        XmlEvent::Other => XmlEventView::Other,
        XmlEvent::Eof => XmlEventView::Eof,
        XmlEvent::Error(m) => XmlEventView::Error(m@),
    }
}

/// The end of a stream: the end of input or an error.
pub open spec fn is_terminal(e: XmlEventView) -> bool {
    e is Eof || e is Error
}

/// A stream of events that ends at its first end of input or error.
pub open spec fn well_ended(events: Seq<XmlEventView>) -> bool {
    &&& events.len() > 0
    &&& is_terminal(events.last())
    &&& forall|i: int| 0 <= i < events.len() - 1 ==> !is_terminal(#[trigger] events[i])
}

/// The events that `quick_xml`, reading `raw` with `Reader::from_str` and text trimming on,
/// yields, up to and including the first end of input or error.
pub uninterp spec fn xml_events(raw: Seq<char>) -> Seq<XmlEventView>;

/// The events that the reader `r` has yet to yield, up to and including the first end of
/// input or error.
pub uninterp spec fn reader_events(r: Reader<&[u8]>) -> Seq<XmlEventView>;

/// What `quick_xml::escape::unescape` makes of `raw`: the text with its predefined and
/// character entities replaced, or `None` where it reports an error.
pub uninterp spec fn xml_unescaped(raw: Seq<char>) -> Option<Seq<char>>;

/// A reader over `raw` that trims text.
///
/// Trusted: calls `Reader::from_str` and sets `trim_text(true)` on its configuration. The
/// contract names the events it will yield (`xml_events`) and states that they end at the
/// first end of input or error: every event but `Eof` consumes input, so the stream is finite.
#[verifier::external_body]
pub(crate) fn xml_reader(raw: &str) -> (r: Reader<&[u8]>)
    ensures
        reader_events(r) == xml_events(raw@),
        well_ended(reader_events(r)),
{
    let mut r = Reader::from_str(raw);
    r.config_mut().trim_text(true);
    r
}

/// The next event of `reader`.
///
/// Trusted: calls `Reader::read_event` and converts what it returns: names, attribute
/// names and raw attribute values become strings (lossy UTF-8), an unparsable attribute
/// becomes `None`, text, comments and the like become `Other`, an error its message. The
/// contract states that the event is the first of those the reader had yet to yield; after
/// any other event the rest are still to come; after the end of input the reader yields
/// the end of input again. What follows an error (quick-xml skips the bad data and reads
/// on) is left unsaid.
#[verifier::external_body]
pub(crate) fn next_event(reader: &mut Reader<&[u8]>) -> (e: XmlEvent)
    requires
        reader_events(*old(reader)).len() > 0,
    ensures
        event_view(e) == reader_events(*old(reader))[0],
        !is_terminal(event_view(e)) ==> reader_events(*final(reader)) == reader_events(*old(reader)).drop_first(),
        event_view(e) is Eof ==> reader_events(*final(reader)) == seq![XmlEventView::Eof],
{
    let text = |b: &[u8]| String::from_utf8_lossy(b).into_owned();
    let tag = |s: BytesStart| XmlTag {
        name: text(s.name().0),
        attrs: s.attributes().map(|a| a.ok().map(|a| (text(a.key.0), text(&a.value)))).collect(),
    };
    match reader.read_event() {
        Ok(Event::Start(s)) => Start(tag(s)),
        Ok(Event::Empty(s)) => Empty(tag(s)),
        Ok(Event::End(s)) => End(text(s.name().0)),
        Ok(Event::Eof) => Eof,
        Ok(_) => Other,
        Err(err) => Error(err.to_string()),
    }
}

/// The attribute value `raw` with its entities replaced.
///
/// Trusted: calls `quick_xml::escape::unescape`; `None` where it reports an error.
#[verifier::external_body]
pub(crate) fn unescape_value(raw: &str) -> (r: Option<String>)
    ensures
        match r {
            Some(s) => xml_unescaped(raw@) == Some(s@),
            None => xml_unescaped(raw@) is None,
        },
{
    quick_xml::escape::unescape(raw).ok().map(|v| v.into_owned())
}

/// The part of a lower-cased name after its last `:`.
pub open spec fn after_last_colon(s: Seq<char>) -> Seq<char>
    decreases s.len(),
{
    if s.len() == 0 {
        s
    } else if s.last() == ':' {
        Seq::empty()
    } else {
        after_last_colon(s.drop_last()).push(s.last())
    }
}

/// The local name of a qualified name: ASCII lower-cased, without its prefix.
pub open spec fn spec_local_name(raw: Seq<char>) -> Seq<char> {
    after_last_colon(ascii_lower(raw))
}

proof fn lemma_after_last_colon(s: Seq<char>, k: int)
    requires
        0 <= k <= s.len(),
        k == 0 || s[k - 1] == ':',
        forall|j: int| k <= j < s.len() ==> #[trigger] s[j] != ':',
    ensures
        after_last_colon(s) == s.subrange(k, s.len() as int),
    decreases s.len(),
{
    if s.len() > k {
        let d = s.drop_last();
        assert forall|j: int| k <= j < d.len() implies #[trigger] d[j] != ':' by {
            assert(d[j] == s[j]);
        }
        if k > 0 {
            assert(d[k - 1] == ':');
        }
        lemma_after_last_colon(d, k);
        assert(s.subrange(k, s.len() as int) =~= d.subrange(k, d.len() as int).push(s.last()));
    } else if k > 0 {
        assert(s.last() == ':');
    }
}

/// The local name of `raw`: ASCII lower-cased, the prefix up to the last `:` left out.
pub fn local_name(raw: &str) -> (r: String)
    ensures
        r@ == spec_local_name(raw@),
{
    let l = lower_chars_of(raw);
    let mut k = l.len();
    while k > 0 && l[k - 1] != ':'
        invariant
            k <= l@.len(),
            forall|j: int| k <= j < l@.len() ==> #[trigger] l@[j] != ':',
        decreases k,
    {
        k = k - 1;
    }
    proof {
        lemma_after_last_colon(l@, k as int);
    }
    string_of_range(&l, k, l.len())
}

/// Whether the attribute is present, named `key` (by local name) and has a value that
/// unescapes.
pub open spec fn attr_matches(a: AttrView, key: Seq<char>) -> bool {
    match a {
        Some((k, v)) => spec_local_name(k) == key && xml_unescaped(v) is Some,
        None => false,
    }
}

/// The unescaped value of the first attribute named `key` (compared by local name) whose
/// value unescapes.
pub open spec fn spec_attr(attrs: Seq<AttrView>, key: Seq<char>) -> Option<Seq<char>>
    decreases attrs.len(),
{
    if attrs.len() == 0 {
        None
    } else if attr_matches(attrs[0], key) {
        xml_unescaped(attrs[0].unwrap().1)
    } else {
        spec_attr(attrs.drop_first(), key)
    }
}

proof fn lemma_spec_attr_skip(attrs: Seq<AttrView>, key: Seq<char>, i: int)
    requires
        0 <= i <= attrs.len(),
        forall|j: int| 0 <= j < i ==> !attr_matches(#[trigger] attrs[j], key),
    ensures
        spec_attr(attrs, key) == spec_attr(attrs.skip(i), key),
    decreases i,
{
    if i > 0 {
        assert(!attr_matches(attrs[0], key));
        let t = attrs.drop_first();
        assert forall|j: int| 0 <= j < i - 1 implies !attr_matches(#[trigger] t[j], key) by {
            assert(t[j] == attrs[j + 1]);
        }
        lemma_spec_attr_skip(t, key, i - 1);
        assert(t.skip(i - 1) =~= attrs.skip(i));
    } else {
        assert(attrs.skip(0) =~= attrs);
    }
}

/// The value of the attribute `key` of `tag` (see `spec_attr`); `key` is lower-cased first.
pub fn read_attr(tag: &XmlTag, key: &str) -> (r: Option<String>)
    ensures
        match r {
            Some(s) => spec_attr(attrs_view(*tag), ascii_lower(key@)) == Some(s@),
            None => spec_attr(attrs_view(*tag), ascii_lower(key@)) is None,
        },
{
    let ghost av = attrs_view(*tag);
    let ghost lk = ascii_lower(key@);
    let kl = lower_chars_of(key);
    let mut i: usize = 0;
    while i < tag.attrs.len()
        invariant
            av == attrs_view(*tag),
            lk == ascii_lower(key@),
            kl@ == lk,
            i <= tag.attrs@.len(),
            forall|j: int| 0 <= j < i ==> !attr_matches(#[trigger] av[j], lk),
        decreases tag.attrs@.len() - i,
    {
        assert(av[i as int] == attr_view(tag.attrs@[i as int]));
        if let Some((key_raw, value_raw)) = &tag.attrs[i] {
            let name = local_name(key_raw.as_str());
            let nv = chars_of(name.as_str());
            if nv.len() == kl.len() {
                let mut same = true;
                let mut j: usize = 0;
                while j < kl.len()
                    invariant
                        nv@.len() == kl@.len(),
                        j <= kl@.len(),
                        same == (forall|t: int| 0 <= t < j ==> nv@[t] == kl@[t]),
                    decreases kl@.len() - j,
                {
                    if nv[j] != kl[j] {
                        same = false;
                    }
                    j = j + 1;
                }
                if same {
                    assert(nv@ =~= kl@);
                    match unescape_value(value_raw.as_str()) {
                        Some(v) => {
                            proof {
                                lemma_spec_attr_skip(av, lk, i as int);
                                assert(av.skip(i as int)[0] == av[i as int]);
                            }
                            return Some(v);
                        },
                        None => {},
                    }
                } else {
                    assert(nv@ != kl@) by {
                        let t = choose|t: int| 0 <= t < j && nv@[t] != kl@[t];
                    }
                }
            }
        }
        i = i + 1;
    }
    proof {
        lemma_spec_attr_skip(av, lk, i as int);
        assert(av.skip(i as int).len() == 0);
    }
    None
}

} // verus!
