//! XML documents as the sequence of events that `quick_xml` reads from them.
use std::borrow::Cow;

use quick_xml::events::{BytesStart, Event};
use vstd::prelude::*;

use crate::text;
use crate::text::{from_utf8_lossy, same_text};

verus! {

/// `quick_xml::Reader`, which hands out the events of a document one by one.
#[verifier::external_type_specification]
#[verifier::external_body]
#[verifier::reject_recursive_types(R)]
pub struct ExReader<R>(quick_xml::Reader<R>);

/// A start tag: its name, and the attributes that can be read, in the order of the document.
#[derive(Debug)]
pub struct XmlTag {
    pub name: String,
    pub attributes: Vec<(String, String)>,
}

/// What an [`XmlTag`] holds.
pub struct TagView {
    pub name: Seq<char>,
    pub attributes: Seq<(Seq<char>, Seq<char>)>,
}

impl View for XmlTag {
    type V = TagView;

    open spec fn view(&self) -> TagView {
        TagView {
            name: self.name@,
            attributes: self.attributes@.map_values(|kv: (String, String)| (kv.0@, kv.1@)),
        }
    }
}

/// One event of a document.
#[derive(Debug)]
pub enum XmlEvent {
    /// `<name ...>`
    Start(XmlTag),
    /// `<name .../>`
    Empty(XmlTag),
    /// `</name>`
    End(String),
    /// Character data with its references resolved; `None` where one cannot be resolved.
    Text(Option<String>),
    /// A CDATA section, comment, declaration, processing instruction or document type.
    Other,
    /// The end of the document.
    Eof,
}

/// What an [`XmlEvent`] holds.
pub enum EventView {
    Start(TagView),
    Empty(TagView),
    End(Seq<char>),
    Text(Option<Seq<char>>),
    Other,
    Eof,
}

impl View for XmlEvent {
    type V = EventView;

    open spec fn view(&self) -> EventView {
        match self {
            XmlEvent::Start(t) => EventView::Start(t@),
            XmlEvent::Empty(t) => EventView::Empty(t@),
            XmlEvent::End(n) => EventView::End(n@),
            XmlEvent::Text(t) => EventView::Text(
                match t {
                    Some(s) => Some(s@),
                    None => None,
                },
            ),
            XmlEvent::Other => EventView::Other,
            XmlEvent::Eof => EventView::Eof,
        }
    }
}

/// A start tag as it is read: the bytes of its name and of its attributes.
#[derive(Debug)]
pub struct RawTag {
    pub name: Vec<u8>,
    pub attributes: Vec<(Vec<u8>, Vec<u8>)>,
}

impl View for RawTag {
    type V = TagView;

    open spec fn view(&self) -> TagView {
        TagView {
            name: text::decoded(self.name@),
            attributes: self.attributes@.map_values(
                |kv: (Vec<u8>, Vec<u8>)| (text::decoded(kv.0@), text::decoded(kv.1@)),
            ),
        }
    }
}

impl RawTag {
    /// The tag as text.
    pub fn decode(&self) -> (r: XmlTag)
        ensures
            r@ == self@,
    {
        let mut attributes: Vec<(String, String)> = Vec::new();
        for i in 0..self.attributes.len()
            invariant
                attributes.len() == i,
                forall|k: int|
                    0 <= k < i ==> (#[trigger] attributes@[k]).0@ == text::decoded(
                        self.attributes@[k].0@,
                    ) && attributes@[k].1@ == text::decoded(self.attributes@[k].1@),
        {
            let kv = &self.attributes[i];
            attributes.push((from_utf8_lossy(&kv.0), from_utf8_lossy(&kv.1)));
        }
        let r = XmlTag { name: from_utf8_lossy(&self.name), attributes };
        assert(r@.attributes =~= self@.attributes);
        r
    }
}

/// One event of a document as it is read.
#[derive(Debug)]
pub enum RawEvent {
    Start(RawTag),
    Empty(RawTag),
    End(Vec<u8>),
    Text(Option<String>),
    Other,
    Eof,
}

impl View for RawEvent {
    type V = EventView;

    open spec fn view(&self) -> EventView {
        match self {
            RawEvent::Start(t) => EventView::Start(t@),
            RawEvent::Empty(t) => EventView::Empty(t@),
            RawEvent::End(n) => EventView::End(text::decoded(n@)),
            RawEvent::Text(t) => EventView::Text(
                match t {
                    Some(s) => Some(s@),
                    None => None,
                },
            ),
            RawEvent::Other => EventView::Other,
            RawEvent::Eof => EventView::Eof,
        }
    }
}

impl RawEvent {
    /// The event as text.
    pub fn decode(self) -> (r: XmlEvent)
        ensures
            r@ == self@,
    {
        match self {
            RawEvent::Start(t) => XmlEvent::Start(t.decode()),
            RawEvent::Empty(t) => XmlEvent::Empty(t.decode()),
            RawEvent::End(n) => XmlEvent::End(from_utf8_lossy(&n)),
            RawEvent::Text(t) => XmlEvent::Text(t),
            RawEvent::Other => XmlEvent::Other,
            RawEvent::Eof => XmlEvent::Eof,
        }
    }
}

/// What one read of a document gives: an event, or the message of an error.
pub type Step = Result<EventView, Seq<char>>;

/// What the outcome of a raw read stands for.
pub open spec fn raw_step(r: Result<RawEvent, String>) -> Step {
    match r {
        Ok(e) => Ok(e@),
        Err(m) => Err(m@),
    }
}

/// What the outcome of a read stands for.
pub open spec fn step_view(r: Result<XmlEvent, String>) -> Step {
    match r {
        Ok(e) => Ok(e@),
        Err(m) => Err(m@),
    }
}

/// Whether reading stops at `s`.
pub open spec fn is_final(s: Step) -> bool {
    s is Err || s == Step::Ok(EventView::Eof)
}

/// Whether `s` holds reads of which the last, and no other, is where reading stops.
pub open spec fn is_run(s: Seq<Step>) -> bool {
    &&& s.len() > 0
    &&& is_final(s.last())
    &&& forall|i: int| 0 <= i < s.len() - 1 ==> !is_final(#[trigger] s[i])
}

/// What the successive reads of a document give, up to its end or the first error, with
/// the white space around character data dropped.
pub uninterp spec fn xml_steps(document: Seq<char>) -> Seq<Step>;

/// What the reads that are left on a reader give, up to the end or the first error.
pub uninterp spec fn steps_left(reader: quick_xml::Reader<&[u8]>) -> Seq<Step>;

/// Calls `quick_xml::Reader::from_str` and sets `trim_text` in its configuration. Every read
/// but the last takes at least one byte of the document, so reading comes to an end: at the
/// end of the document or at an error. Which events a document holds is left unsaid; they
/// depend on its text alone.
#[verifier::external_body]
pub(crate) fn open_xml(document: &str) -> (r: quick_xml::Reader<&[u8]>)
    ensures
        steps_left(r) == xml_steps(document@),
        is_run(steps_left(r)),
{
    let mut reader = quick_xml::Reader::from_str(document);
    reader.config_mut().trim_text(true);
    reader
}

/// Calls `quick_xml::Reader::read_event_into`: takes the next of the reads that are left.
/// Names and attributes, through `BytesStart::attributes`, are handed on as bytes, and
/// attributes that cannot be read are dropped; character data goes through
/// `BytesText::unescape`; an error becomes its message.
#[verifier::external_body]
pub(crate) fn read_event(reader: &mut quick_xml::Reader<&[u8]>) -> (r: Result<RawEvent, String>)
    requires
        steps_left(*old(reader)).len() > 0,
    ensures
        raw_step(r) == steps_left(*old(reader))[0],
        steps_left(*final(reader)) == steps_left(*old(reader)).skip(1),
{
    let tag = |e: BytesStart| RawTag {
        name: e.name().0.into(),
        attributes: e.attributes().flatten().map(|a| (a.key.0.into(), a.value.into())).collect(),
    };
    Ok(match reader.read_event_into(&mut vec![]).map_err(|e| e.to_string())? {
        Event::Start(e) => RawEvent::Start(tag(e)),
        Event::Empty(e) => RawEvent::Empty(tag(e)),
        Event::End(e) => RawEvent::End(e.name().0.into()),
        Event::Text(t) => RawEvent::Text(t.unescape().ok().map(Cow::into_owned)),
        Event::Eof => RawEvent::Eof,
        _ => RawEvent::Other,
    })
}

/// The next event of a document, or the message of an error.
pub(crate) fn next_event(reader: &mut quick_xml::Reader<&[u8]>) -> (r: Result<XmlEvent, String>)
    requires
        steps_left(*old(reader)).len() > 0,
    ensures
        step_view(r) == steps_left(*old(reader))[0],
        steps_left(*final(reader)) == steps_left(*old(reader)).skip(1),
{
    match read_event(reader) {
        Ok(e) => Ok(e.decode()),
        Err(m) => Err(m),
    }
}

/// The value of the last readable attribute named `key`.
pub open spec fn last_attribute(
    attributes: Seq<(Seq<char>, Seq<char>)>,
    key: Seq<char>,
) -> Option<Seq<char>>
    decreases attributes.len(),
{
    if attributes.len() == 0 {
        None
    } else if attributes.last().0 == key {
        Some(attributes.last().1)
    } else {
        last_attribute(attributes.drop_last(), key)
    }
}

impl XmlTag {
    /// The value of the last readable attribute named `key`.
    pub fn attribute(&self, key: &str) -> (r: Option<&String>)
        ensures
            match r {
                Some(v) => last_attribute(self@.attributes, key@) == Some(v@),
                None => last_attribute(self@.attributes, key@) is None,
            },
    {
        let ghost all = self@.attributes;
        let mut i: usize = self.attributes.len();
        assert(all.take(i as int) == all);
        while i > 0
            invariant
                i <= self.attributes.len(),
                all == self@.attributes,
                last_attribute(all, key@) == last_attribute(all.take(i as int), key@),
            decreases i,
        {
            i -= 1;
            assert(all.take(i + 1).drop_last() == all.take(i as int));
            let kv = &self.attributes[i];
            assert(all[i as int] == (kv.0@, kv.1@));
            if same_text(&kv.0, key) {
                return Some(&kv.1);
            }
        }
        None
    }

    /// Whether the tag is named `name`.
    pub fn is(&self, name: &str) -> (r: bool)
        ensures
            r == (self@.name == name@),
    {
        same_text(&self.name, name)
    }
}

/// A number of at most `max` in an attribute: 0 where it is not one.
pub open spec fn attr_number(v: Seq<char>, max: nat) -> nat {
    match text::unsigned(v, max) {
        Some(n) => n,
        None => 0,
    }
}

/// A number of at most `max` in an attribute: 0 where it is not one.
pub fn attr_to_number(v: &str, max: u64) -> (r: u64)
    ensures
        r == attr_number(v@, max as nat),
        r <= max,
{
    let cs = text::chars_of(v);
    match text::parse_unsigned(&cs, max) {
        Some(n) => n,
        None => 0,
    }
}

/// Of several attributes with one name the last counts, and a tag without any has no value for it.
pub proof fn last_of_a_name_counts(
    attributes: Seq<(Seq<char>, Seq<char>)>,
    key: Seq<char>,
    i: int,
)
    ensures
        0 <= i < attributes.len() && attributes[i].0 == key && (forall|j: int|
            i < j < attributes.len() ==> (#[trigger] attributes[j]).0 != key) ==> last_attribute(
            attributes,
            key,
        ) == Some(attributes[i].1),
        (forall|j: int| 0 <= j < attributes.len() ==> (#[trigger] attributes[j]).0 != key)
            ==> last_attribute(attributes, key) is None,
    decreases attributes.len(),
{
    if attributes.len() > 0 {
        let n = attributes.len() - 1;
        assert(attributes[n] == attributes.last());
        if attributes.last().0 != key {
            last_of_a_name_counts(attributes.drop_last(), key, i);
        }
    }
}

/// A number in an attribute is read if it is not too great; what is not one counts as none.
pub proof fn attribute_numbers_are_read(n: nat, max: nat, v: Seq<char>)
    ensures
        n <= max ==> attr_number(text::decimal(n), max) == n,
        n > max ==> attr_number(text::decimal(n), max) == 0,
        v.len() == 0 ==> attr_number(v, max) == 0,
        (exists|i: int| 1 <= i < v.len() && !('0' as u32 <= (#[trigger] v[i]) as u32 <= '9' as u32))
            ==> attr_number(v, max) == 0,
{
    text::decimal_is_read_back(n, n);
    text::decimals_are_plain(n);
    assert(text::decimal(n)[0] != '+');
    if exists|i: int| 1 <= i < v.len() && !('0' as u32 <= (#[trigger] v[i]) as u32 <= '9' as u32) {
        let i = choose|i: int|
            1 <= i < v.len() && !('0' as u32 <= (#[trigger] v[i]) as u32 <= '9' as u32);
        assert(v.skip(1)[i - 1] == v[i]);
        assert(!text::is_digit(v[i]));
    }
}

/// Whether a tag has an attribute `key` with the value `v`: of several with that name the last
/// counts.
pub open spec fn tells(tag: TagView, key: Seq<char>, v: Seq<char>) -> bool {
    exists|i: int|
        0 <= i < tag.attributes.len() && #[trigger] tag.attributes[i] == (key, v) && forall|j: int|
            i < j < tag.attributes.len() ==> (#[trigger] tag.attributes[j]).0 != key
}

/// What a tag tells is what counts for it.
pub proof fn told_values_count(tag: TagView, key: Seq<char>, v: Seq<char>)
    requires
        tells(tag, key, v),
    ensures
        last_attribute(tag.attributes, key) == Some(v),
{
    let i = choose|i: int|
        0 <= i < tag.attributes.len() && #[trigger] tag.attributes[i] == (key, v) && forall|j: int|
            i < j < tag.attributes.len() ==> (#[trigger] tag.attributes[j]).0 != key;
    last_of_a_name_counts(tag.attributes, key, i);
}

} // verus!
