//! The boundary to the XML tokenizer.
//!
//! A part is read as a stream of events. Each event is handed to the rest of
//! the library as plain bytes: its kind, its raw content and, for a tag, the
//! length of its name. What the tokenizer computes is not proved here; the
//! functions marked `external_body` state what is relied on.

use crate::bytes::append_bytes;
use quick_xml::events::attributes::Attributes;
use quick_xml::events::{BytesStart, Event};
use quick_xml::reader::Reader;
use vstd::prelude::*;
use vstd::string::StringSliceAdditionalSpecFns;
use vstd::utf8::valid_utf8;

verus! {

/// The byte `<`.
pub const LT: u8 = 0x3c;

/// The byte `>`.
pub const GT: u8 = 0x3e;

/// The byte `/`.
pub const SLASH: u8 = 0x2f;

/// The byte `!`.
pub const BANG: u8 = 0x21;

/// The byte `-`.
pub const DASH: u8 = 0x2d;

/// The byte `?`.
pub const QUERY: u8 = 0x3f;

/// The byte `[`.
pub const OPEN_BRACKET: u8 = 0x5b;

/// The byte `]`.
pub const CLOSE_BRACKET: u8 = 0x5d;

/// The byte of a blank.
pub const SPACE: u8 = 0x20;

/// The byte `A`.
pub const UPPER_A: u8 = 0x41;

/// The byte `C`.
pub const UPPER_C: u8 = 0x43;

/// The byte `D`.
pub const UPPER_D: u8 = 0x44;

/// The byte `E`.
pub const UPPER_E: u8 = 0x45;

/// The byte `O`.
pub const UPPER_O: u8 = 0x4f;

/// The byte `P`.
pub const UPPER_P: u8 = 0x50;

/// The byte `T`.
pub const UPPER_T: u8 = 0x54;

/// The byte `Y`.
pub const UPPER_Y: u8 = 0x59;

/// `quick_xml::reader::Reader`, the tokenizer. Nothing is known of a reader
/// but what `reader_pending` and `reader_offset` name.
#[verifier::external_type_specification]
#[verifier::external_body]
#[verifier::reject_recursive_types(R)]
pub struct ExReader<R>(Reader<R>);

/// One event of a part. The byte strings are the raw content as it stands in
/// the part, between the delimiters of the event's kind.
pub enum XmlEvent {
    /// An opening tag: the length of its name, and its content (the name, then the attributes).
    Start(usize, Vec<u8>),
    /// A closing tag: its name.
    End(Vec<u8>),
    /// A self-closing tag: the length of its name, and its content.
    Empty(usize, Vec<u8>),
    /// Character data, still escaped.
    Text(Vec<u8>),
    /// A section of character data that is not escaped.
    CData(Vec<u8>),
    /// A comment.
    Comment(Vec<u8>),
    /// The declaration at the start of the part.
    Decl(Vec<u8>),
    /// A processing instruction.
    PI(Vec<u8>),
    /// A document type declaration.
    DocType(Vec<u8>),
    /// The end of the part.
    Eof,
}

/// The mathematical value of an [`XmlEvent`].
pub enum EventModel {
    Start(nat, Seq<u8>),
    End(Seq<u8>),
    Empty(nat, Seq<u8>),
    Text(Seq<u8>),
    CData(Seq<u8>),
    Comment(Seq<u8>),
    Decl(Seq<u8>),
    PI(Seq<u8>),
    DocType(Seq<u8>),
    Eof,
}

impl View for XmlEvent {
    type V = EventModel;

    open spec fn view(&self) -> EventModel {
        match self {
            XmlEvent::Start(n, c) => EventModel::Start(*n as nat, c@),
            XmlEvent::End(c) => EventModel::End(c@),
            XmlEvent::Empty(n, c) => EventModel::Empty(*n as nat, c@),
            XmlEvent::Text(c) => EventModel::Text(c@),
            XmlEvent::CData(c) => EventModel::CData(c@),
            XmlEvent::Comment(c) => EventModel::Comment(c@),
            XmlEvent::Decl(c) => EventModel::Decl(c@),
            XmlEvent::PI(c) => EventModel::PI(c@),
            XmlEvent::DocType(c) => EventModel::DocType(c@),
            XmlEvent::Eof => EventModel::Eof,
        }
    }
}

impl EventModel {
    /// The qualified name of a tag; empty for an event that is no tag.
    pub open spec fn name(self) -> Seq<u8> {
        match self {
            EventModel::Start(n, c) | EventModel::Empty(n, c) => if n <= c.len() {
                c.take(n as int)
            } else {
                c
            },
            EventModel::End(c) => c,
            _ => Seq::empty(),
        }
    }

    /// The bytes that stand for the event in a part.
    pub open spec fn markup(self) -> Seq<u8> {
        match self {
            EventModel::Start(_, c) => seq![LT] + c + seq![GT],
            EventModel::End(c) => seq![LT, SLASH] + c + seq![GT],
            EventModel::Empty(_, c) => seq![LT] + c + seq![SLASH, GT],
            EventModel::Text(c) => c,
            EventModel::CData(c) => seq![
                LT,
                BANG,
                OPEN_BRACKET,
                UPPER_C,
                UPPER_D,
                UPPER_A,
                UPPER_T,
                UPPER_A,
                OPEN_BRACKET,
            ] + c + seq![CLOSE_BRACKET, CLOSE_BRACKET, GT],
            EventModel::Comment(c) => seq![LT, BANG, DASH, DASH] + c + seq![DASH, DASH, GT],
            EventModel::Decl(c) => seq![LT, QUERY] + c + seq![QUERY, GT],
            EventModel::PI(c) => seq![LT, QUERY] + c + seq![QUERY, GT],
            EventModel::DocType(c) => seq![
                LT,
                BANG,
                UPPER_D,
                UPPER_O,
                UPPER_C,
                UPPER_T,
                UPPER_Y,
                UPPER_P,
                UPPER_E,
                SPACE,
            ] + c + seq![GT],
            EventModel::Eof => Seq::empty(),
        }
    }

    /// Whether the event can be read: a tag can where its content is text.
    #[verifier::opaque]
    pub open spec fn readable(self) -> bool {
        match self {
            EventModel::Start(_, c) | EventModel::Empty(_, c) => valid_utf8(c),
            _ => true,
        }
    }

    /// Whether the event is a tag whose name length lies within its content.
    pub open spec fn well_formed(self) -> bool {
        match self {
            EventModel::Start(n, c) | EventModel::Empty(n, c) => n <= c.len(),
            _ => true,
        }
    }
}

/// The bytes that the events of `events` stand for, one after the other.
pub open spec fn markup_of(events: Seq<EventModel>) -> Seq<u8>
    decreases events.len(),
{
    if events.len() == 0 {
        Seq::empty()
    } else {
        markup_of(events.drop_last()) + events.last().markup()
    }
}

/// One step of reading a part: the event that came out, or `None` where the
/// tokenizer reported a fault, and the byte offset at which the reader then stood.
pub struct Reading {
    pub event: Option<EventModel>,
    pub offset: nat,
}

/// Whether `readings` is a whole run of a reader: every step but the last
/// hands out an event other than `Eof`, and the last one is `Eof` or a fault.
pub open spec fn complete_run(readings: Seq<Reading>) -> bool {
    &&& readings.len() > 0
    &&& forall|i: int|
        0 <= i < readings.len() - 1 ==> (#[trigger] readings[i]).event is Some
            && readings[i].event != Some(EventModel::Eof)
    &&& readings.last().event is None || readings.last().event == Some(EventModel::Eof)
    &&& forall|i: int|
        0 <= i < readings.len() ==> ((#[trigger] readings[i]).event matches Some(ev)
            ==> ev.well_formed())
}

/// The steps that the tokenizer takes on `input`, from its first byte up to
/// and including the first `Eof` or fault.
pub uninterp spec fn xml_readings(input: Seq<u8>) -> Seq<Reading>;

/// The steps that `reader` has still to take.
pub uninterp spec fn reader_pending(reader: Reader<&[u8]>) -> Seq<Reading>;

/// The byte offset at which `reader` stands.
pub uninterp spec fn reader_offset(reader: Reader<&[u8]>) -> nat;

/// `Reader::from_reader` on a byte slice. The reader will take the steps that
/// the tokenizer takes on `input`; they end with `Eof` or with a fault.
#[verifier::external_body]
pub(crate) fn open_reader<'a>(input: &'a [u8]) -> (reader: Reader<&'a [u8]>)
    ensures
        reader_pending(reader) == xml_readings(input@),
        complete_run(reader_pending(reader)),
{
    Reader::from_reader(input)
}

/// `Reader::read_event`, the event copied out as plain bytes. It takes the
/// first of the pending steps: that step's event comes back, or `None`
/// where the step is a fault. The name length of a tag is the length of what
/// `BytesStart::name` returns, a prefix of the content.
#[verifier::external_body]
pub(crate) fn next_event<'a>(reader: &mut Reader<&'a [u8]>) -> (res: Option<XmlEvent>)
    requires
        reader_pending(*old(reader)).len() > 0,
    ensures
        reader_pending(*final(reader)) == reader_pending(*old(reader)).skip(1),
        reader_offset(*final(reader)) == reader_pending(*old(reader))[0].offset,
        match res {
            Some(ev) => reader_pending(*old(reader))[0].event == Some(ev@),
            None => reader_pending(*old(reader))[0].event is None,
        },
{
    let ev = reader.read_event().ok()?;
    let content = ev.to_vec();
    Some(match ev {
        Event::Start(e) => XmlEvent::Start(e.name().as_ref().len(), content),
        Event::End(_) => XmlEvent::End(content),
        Event::Empty(e) => XmlEvent::Empty(e.name().as_ref().len(), content),
        Event::Text(_) => XmlEvent::Text(content),
        Event::CData(_) => XmlEvent::CData(content),
        Event::Comment(_) => XmlEvent::Comment(content),
        Event::Decl(_) => XmlEvent::Decl(content),
        Event::PI(_) => XmlEvent::PI(content),
        Event::DocType(_) => XmlEvent::DocType(content),
        Event::Eof => XmlEvent::Eof,
    })
}

/// `Reader::buffer_position`: the byte offset at which the reader stands.
#[verifier::external_body]
pub(crate) fn reader_position<'a>(reader: &Reader<&'a [u8]>) -> (pos: u64)
    ensures
        pos == reader_offset(*reader),
{
    reader.buffer_position()
}

/// `std::str::from_utf8`: the bytes as text, where they are valid UTF-8.
#[verifier::external_body]
pub(crate) fn utf8_text<'a>(bytes: &'a [u8]) -> (res: Option<&'a str>)
    ensures
        res is Some <==> valid_utf8(bytes@),
        res matches Some(text) ==> text.spec_bytes() == bytes@,
{
    std::str::from_utf8(bytes).ok()
}

/// What unescaping makes of the escaped text `text`: the text with each
/// character reference and predefined entity resolved, or `None` where a
/// reference in it cannot be resolved.
pub uninterp spec fn xml_unescaped(text: Seq<char>) -> Option<Seq<char>>;

/// `quick_xml::escape::unescape`.
#[verifier::external_body]
pub(crate) fn unescape(text: &str) -> (res: Option<String>)
    ensures
        res is Some <==> xml_unescaped(text@) is Some,
        res matches Some(plain) ==> xml_unescaped(text@) == Some(plain@),
{
    quick_xml::escape::unescape(text).ok().map(|plain| plain.into_owned())
}

/// The escaped form of one character.
pub open spec fn escaped_char(c: char) -> Seq<char> {
    if c == '<' {
        seq!['&', 'l', 't', ';']
    } else if c == '>' {
        seq!['&', 'g', 't', ';']
    } else if c == '&' {
        seq!['&', 'a', 'm', 'p', ';']
    } else if c == '\'' {
        seq!['&', 'a', 'p', 'o', 's', ';']
    } else if c == '"' {
        seq!['&', 'q', 'u', 'o', 't', ';']
    } else {
        seq![c]
    }
}

/// The escaped form of `text`: each of `<`, `>`, `&`, `'` and `"` replaced by its entity.
pub open spec fn escaped(text: Seq<char>) -> Seq<char>
    decreases text.len(),
{
    if text.len() == 0 {
        Seq::empty()
    } else {
        escaped(text.drop_last()) + escaped_char(text.last())
    }
}

/// `quick_xml::escape::escape`, which replaces the five special characters by their entities.
#[verifier::external_body]
pub(crate) fn escape(text: &str) -> (res: String)
    ensures
        res@ == escaped(text@),
{
    quick_xml::escape::escape(text).into_owned()
}

/// One attribute of a tag: its key and its raw value, as they stand in the part.
pub struct Attribute {
    pub key: Vec<u8>,
    pub value: Vec<u8>,
}

/// The mathematical value of an [`Attribute`].
pub struct AttributeModel {
    pub key: Seq<u8>,
    pub value: Seq<u8>,
}

impl View for Attribute {
    type V = AttributeModel;

    open spec fn view(&self) -> AttributeModel {
        AttributeModel { key: self.key@, value: self.value@ }
    }
}

/// The values of a list of attributes, `None` standing for one that could not be read.
pub open spec fn attribute_views(attrs: Seq<Option<Attribute>>) -> Seq<Option<AttributeModel>> {
    Seq::new(
        attrs.len(),
        |i: int|
            match attrs[i] {
                Some(a) => Some(a@),
                None => None,
            },
    )
}

/// The attributes that the tokenizer finds in the content of a tag whose name
/// is `name_len` bytes long, in their order: key and raw value of each, or
/// `None` in the place of one that is malformed or repeats an earlier key.
pub uninterp spec fn xml_attributes(content: Seq<char>, name_len: nat) -> Seq<
    Option<AttributeModel>,
>;

/// The iterator `Attributes::new`, run to its end.
#[verifier::external_body]
pub(crate) fn tag_attributes(content: &str, name_len: usize) -> (res: Vec<Option<Attribute>>)
    requires
        name_len <= content.spec_bytes().len(),
    ensures
        attribute_views(res@) == xml_attributes(content@, name_len as nat),
{
    Attributes::new(content, name_len).map(
        |attr|
            attr.ok().map(
                |a| Attribute { key: a.key.as_ref().to_vec(), value: a.value.to_vec() },
            ),
    ).collect()
}

/// The raw value of the first attribute with key `key` in the content of a
/// tag whose name is `name_len` bytes long; `None` where there is none or a
/// malformed attribute stands before it.
pub uninterp spec fn xml_attribute_value(content: Seq<char>, name_len: nat, key: Seq<u8>) -> Option<
    Seq<u8>,
>;

/// `BytesStart::try_get_attribute` on a tag made by `BytesStart::from_content`.
#[verifier::external_body]
pub(crate) fn tag_attribute_value(content: &str, name_len: usize, key: &[u8]) -> (res: Option<
    Vec<u8>,
>)
    requires
        name_len <= content.spec_bytes().len(),
    ensures
        match res {
            Some(value) => xml_attribute_value(content@, name_len as nat, key@) == Some(value@),
            None => xml_attribute_value(content@, name_len as nat, key@) is None,
        },
{
    let tag = BytesStart::from_content(content, name_len);
    tag.try_get_attribute(key).ok().flatten().map(|a| a.value.to_vec())
}

/// Appends to `out` the bytes that stand for `event`.
pub fn write_event(out: &mut Vec<u8>, event: &XmlEvent)
    ensures
        final(out)@ == old(out)@ + event@.markup(),
{
    match event {
        XmlEvent::Start(_, c) => {
            out.push(LT);
            append_bytes(out, c.as_slice());
            out.push(GT);
            assert(out@ =~= old(out)@ + event@.markup());
        },
        XmlEvent::End(c) => {
            out.push(LT);
            out.push(SLASH);
            append_bytes(out, c.as_slice());
            out.push(GT);
            assert(out@ =~= old(out)@ + event@.markup());
        },
        XmlEvent::Empty(_, c) => {
            out.push(LT);
            append_bytes(out, c.as_slice());
            out.push(SLASH);
            out.push(GT);
            assert(out@ =~= old(out)@ + event@.markup());
        },
        XmlEvent::Text(c) => {
            append_bytes(out, c.as_slice());
        },
        XmlEvent::CData(c) => {
            let open: [u8; 9] = [
                LT,
                BANG,
                OPEN_BRACKET,
                UPPER_C,
                UPPER_D,
                UPPER_A,
                UPPER_T,
                UPPER_A,
                OPEN_BRACKET,
            ];
            append_bytes(out, open.as_slice());
            append_bytes(out, c.as_slice());
            out.push(CLOSE_BRACKET);
            out.push(CLOSE_BRACKET);
            out.push(GT);
            assert(out@ =~= old(out)@ + event@.markup());
        },
        XmlEvent::Comment(c) => {
            out.push(LT);
            out.push(BANG);
            out.push(DASH);
            out.push(DASH);
            append_bytes(out, c.as_slice());
            out.push(DASH);
            out.push(DASH);
            out.push(GT);
            assert(out@ =~= old(out)@ + event@.markup());
        },
        XmlEvent::Decl(c) => {
            out.push(LT);
            out.push(QUERY);
            append_bytes(out, c.as_slice());
            out.push(QUERY);
            out.push(GT);
            assert(out@ =~= old(out)@ + event@.markup());
        },
        XmlEvent::PI(c) => {
            out.push(LT);
            out.push(QUERY);
            append_bytes(out, c.as_slice());
            out.push(QUERY);
            out.push(GT);
            assert(out@ =~= old(out)@ + event@.markup());
        },
        XmlEvent::DocType(c) => {
            let open: [u8; 10] = [
                LT,
                BANG,
                UPPER_D,
                UPPER_O,
                UPPER_C,
                UPPER_T,
                UPPER_Y,
                UPPER_P,
                UPPER_E,
                SPACE,
            ];
            append_bytes(out, open.as_slice());
            append_bytes(out, c.as_slice());
            out.push(GT);
            assert(out@ =~= old(out)@ + event@.markup());
        },
        XmlEvent::Eof => {
            assert(out@ =~= old(out)@ + event@.markup());
        },
    }
}

impl XmlEvent {
    /// Tells whether the event can be read: a tag can where its content is text.
    pub fn is_readable(&self) -> (res: bool)
        ensures
            res == self@.readable(),
    {
        reveal(EventModel::readable);
        match self {
            XmlEvent::Start(_, c) | XmlEvent::Empty(_, c) => utf8_text(c.as_slice()).is_some(),
            _ => true,
        }
    }

    /// The qualified name of a tag; empty for an event that is no tag.
    pub fn name(&self) -> (res: Vec<u8>)
        ensures
            res@ == self@.name(),
    {
        match self {
            XmlEvent::Start(n, c) | XmlEvent::Empty(n, c) => {
                if *n <= c.len() {
                    let res = crate::bytes::copy_range(c.as_slice(), 0, *n);
                    assert(c@.subrange(0, *n as int) =~= c@.take(*n as int));
                    res
                } else {
                    let res = crate::bytes::copy_range(c.as_slice(), 0, c.len());
                    assert(c@.subrange(0, c.len() as int) =~= c@);
                    res
                }
            },
            XmlEvent::End(c) => {
                let res = crate::bytes::copy_range(c.as_slice(), 0, c.len());
                assert(c@.subrange(0, c.len() as int) =~= c@);
                res
            },
            _ => Vec::new(),
        }
    }
}

} // verus!
