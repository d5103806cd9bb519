//! The operations that only read a part: the text of its paragraphs, the
//! paragraphs in which a pattern matches, and the values of an attribute.

use crate::bytes::bytes_eq;
use crate::error::DocxError;
use crate::lookup::tag_text;
use crate::names::{local_name, local_of};
use crate::pattern::{is_match, regex_matches, Matcher};
use crate::plan::{planned_texts, ReplacementPlan};
use crate::reconstruct::scan;
use crate::stream::{event_views, part_events, part_fault, read_events};
use crate::text::{join3, texts};
use crate::xml::{
    attribute_views, tag_attribute_value, tag_attributes, utf8_text, xml_attribute_value,
    xml_attributes, xml_readings, Attribute, AttributeModel, EventModel, XmlEvent,
};
use crate::xml_util::XMLUtil;
use vstd::prelude::*;
use vstd::string::StringExecFns;
use vstd::utf8::{decode_utf8, encode_utf8, encode_utf8_decode_utf8, valid_utf8};

verus! {

/// The line that shows the text `text` of the document `src_file`.
pub open spec fn shown(src_file: Seq<char>, text: Seq<char>) -> Seq<char> {
    src_file + ": "@ + text
}

/// One line for each of the paragraphs `paras`.
pub open spec fn cat_lines(paras: Seq<Seq<char>>, src_file: Seq<char>) -> Seq<Seq<char>> {
    Seq::new(paras.len(), |i: int| shown(src_file, paras[i]))
}

/// One line for each of the paragraphs `paras` in which `pattern` matches.
pub open spec fn grep_lines(paras: Seq<Seq<char>>, pattern: Seq<char>, src_file: Seq<char>) -> Seq<
    Seq<char>,
>
    decreases paras.len(),
{
    if paras.len() == 0 {
        Seq::empty()
    } else {
        let before = grep_lines(paras.drop_last(), pattern, src_file);
        if regex_matches(pattern, paras.last()).len() > 0 {
            before.push(shown(src_file, paras.last()))
        } else {
            before
        }
    }
}

/// Which attribute of which elements is to be listed.
pub struct AttributeQuery {
    /// The name of the elements.
    pub tagname: String,
    /// The name of the attribute whose value is listed.
    pub attrname: String,
    /// The name of the attribute that decides whether an element counts.
    pub condkey: String,
    /// The value that this attribute has to have.
    pub condval: String,
}

/// The mathematical value of an [`AttributeQuery`].
pub struct AttributeQueryModel {
    pub tagname: Seq<char>,
    pub attrname: Seq<char>,
    pub condkey: Seq<char>,
    pub condval: Seq<char>,
}

impl View for AttributeQuery {
    type V = AttributeQueryModel;

    open spec fn view(&self) -> AttributeQueryModel {
        AttributeQueryModel {
            tagname: self.tagname@,
            attrname: self.attrname@,
            condkey: self.condkey@,
            condval: self.condval@,
        }
    }
}

/// Whether `attr` is an attribute with the local name of `condkey` and the value `condval`.
pub open spec fn meets(attr: Option<AttributeModel>, query: AttributeQueryModel) -> bool {
    attr matches Some(a) && local_name(a.key) == local_name(encode_utf8(query.condkey)) && a.value
        == encode_utf8(query.condval)
}

/// Whether one of `attrs` meets the condition of the query.
pub open spec fn condition_met(
    attrs: Seq<Option<AttributeModel>>,
    query: AttributeQueryModel,
) -> bool
    decreases attrs.len(),
{
    if attrs.len() == 0 {
        false
    } else {
        condition_met(attrs.drop_last(), query) || meets(attrs.last(), query)
    }
}

/// The value that a tag adds to the list: that of the attribute asked for,
/// where the tag has the name asked for and meets the condition. A value
/// that is not text is listed as the empty text.
pub open spec fn listed_value(event: EventModel, query: AttributeQueryModel) -> Option<Seq<char>> {
    match event {
        EventModel::Start(n, c) | EventModel::Empty(n, c) => {
            if local_name(event.name()) != local_name(encode_utf8(query.tagname)) {
                None
            } else {
                match tag_text(n, c) {
                    Some(text) => if condition_met(xml_attributes(text, n), query) {
                        match xml_attribute_value(text, n, encode_utf8(query.attrname)) {
                            Some(value) => if valid_utf8(value) {
                                Some(decode_utf8(value))
                            } else {
                                Some(Seq::empty())
                            },
                            None => None,
                        }
                    } else {
                        None
                    },
                    None => None,
                }
            }
        },
        _ => None,
    }
}

/// One line for each value that the tags among `events` add to the list.
pub open spec fn attribute_lines(
    events: Seq<EventModel>,
    query: AttributeQueryModel,
    src_file: Seq<char>,
) -> Seq<
    Seq<char>,
>
    decreases events.len(),
{
    if events.len() == 0 {
        Seq::empty()
    } else {
        let before = attribute_lines(events.drop_last(), query, src_file);
        match listed_value(events.last(), query) {
            Some(value) => before.push(shown(src_file, value)),
            None => before,
        }
    }
}

/// Tells whether one of `attrs` meets the condition of the query.
fn meets_condition(attrs: &Vec<Option<Attribute>>, query: &AttributeQuery) -> (res: bool)
    ensures
        res == condition_met(attribute_views(attrs@), query@),
{
    let ghost all = attribute_views(attrs@);
    let cond_local = local_of(query.condkey.as_str().as_bytes());
    let mut found = false;
    assert(all.take(0) =~= Seq::<Option<AttributeModel>>::empty());
    let mut i: usize = 0;
    while i < attrs.len()
        invariant
            i <= attrs.len(),
            all == attribute_views(attrs@),
            cond_local@ == local_name(encode_utf8(query.condkey@)),
            found == condition_met(all.take(i as int), query@),
        decreases attrs.len() - i,
    {
        assert(all.take(i + 1).drop_last() =~= all.take(i as int));
        assert(all.take(i + 1).last() == all[i as int]);
        if let Some(attr) = &attrs[i] {
            let key_local = local_of(attr.key.as_slice());
            if bytes_eq(key_local.as_slice(), cond_local.as_slice()) {
                if bytes_eq(attr.value.as_slice(), query.condval.as_str().as_bytes()) {
                    found = true;
                }
            }
        }
        i += 1;
    }
    assert(all.take(attrs.len() as int) =~= all);
    found
}

/// The value that a tag adds to the list.
fn value_listed(event: &XmlEvent, query: &AttributeQuery) -> (res: Option<String>)
    ensures
        match res {
            Some(value) => listed_value(event@, query@) == Some(value@),
            None => listed_value(event@, query@) is None,
        },
{
    match event {
        XmlEvent::Start(n, c) | XmlEvent::Empty(n, c) => {
            let name = event.name();
            let local = local_of(name.as_slice());
            let wanted = local_of(query.tagname.as_str().as_bytes());
            if !bytes_eq(local.as_slice(), wanted.as_slice()) {
                return None;
            }
            if *n > c.len() {
                return None;
            }
            match utf8_text(c.as_slice()) {
                Some(text) => {
                    proof {
                        encode_utf8_decode_utf8(text@);
                    }
                    let attrs = tag_attributes(text, *n);
                    if !meets_condition(&attrs, query) {
                        return None;
                    }
                    match tag_attribute_value(text, *n, query.attrname.as_str().as_bytes()) {
                        Some(value) => match utf8_text(value.as_slice()) {
                            Some(value_text) => {
                                proof {
                                    encode_utf8_decode_utf8(value_text@);
                                }
                                Some(String::from_str(value_text))
                            },
                            None => Some(String::new()),
                        },
                        None => None,
                    }
                },
                None => None,
            }
        },
        _ => None,
    }
}

impl XMLUtil {
    /// Gives one line for each paragraph of the part `xml`: the name of the
    /// document, and the text of the paragraph.
    pub fn cat_text(xml: &[u8], src_file: &str) -> (res: Result<Vec<String>, DocxError>)
        ensures
            ({
                let read = scan(xml_readings(xml@), Map::empty(), src_file@);
                match res {
                    Ok(lines) => read.failed is None && texts(lines@) == cat_lines(
                        read.paras,
                        src_file@,
                    ),
                    Err(e) => exists|offset: u64|
                        e == (DocxError::MalformedMarkup { offset }) && read.failed == Some(
                            offset as nat,
                        ),
                }
            }),
    {
        let empty = ReplacementPlan::new();
        assert(planned_texts(empty@) =~= Map::<usize, Seq<char>>::empty());
        let read = match Self::get_replace_text(xml, src_file, &empty) {
            Ok(read) => read,
            Err(e) => {
                return Err(e);
            },
        };
        let ghost paras = texts(read.paras@);
        let mut lines: Vec<String> = Vec::new();
        let mut i: usize = 0;
        while i < read.paras.len()
            invariant
                i <= read.paras.len(),
                paras == texts(read.paras@),
                texts(lines@) == cat_lines(paras, src_file@).take(i as int),
            decreases read.paras.len() - i,
        {
            let ghost listed = texts(lines@);
            let line = join3(src_file, ": ", read.paras[i].as_str());
            lines.push(line);
            i += 1;
            assert(texts(lines@) =~= listed.push(line@));
            assert(texts(lines@) =~= cat_lines(paras, src_file@).take(i as int));
        }
        assert(cat_lines(paras, src_file@).take(read.paras.len() as int) =~= cat_lines(
            paras,
            src_file@,
        ));
        Ok(lines)
    }

    /// Gives one line for each paragraph of the part `xml` in which `regex` matches.
    pub fn grep_text(xml: &[u8], src_file: &str, regex: &Matcher) -> (res: Result<
        Vec<String>,
        DocxError,
    >)
        ensures
            ({
                let read = scan(xml_readings(xml@), Map::empty(), src_file@);
                match res {
                    Ok(lines) => read.failed is None && texts(lines@) == grep_lines(
                        read.paras,
                        regex@,
                        src_file@,
                    ),
                    Err(e) => exists|offset: u64|
                        e == (DocxError::MalformedMarkup { offset }) && read.failed == Some(
                            offset as nat,
                        ),
                }
            }),
    {
        let empty = ReplacementPlan::new();
        assert(planned_texts(empty@) =~= Map::<usize, Seq<char>>::empty());
        let read = match Self::get_replace_text(xml, src_file, &empty) {
            Ok(read) => read,
            Err(e) => {
                return Err(e);
            },
        };
        let ghost paras = texts(read.paras@);
        let mut lines: Vec<String> = Vec::new();
        assert(paras.take(0) =~= Seq::<Seq<char>>::empty());
        assert(texts(lines@) =~= Seq::<Seq<char>>::empty());
        let mut i: usize = 0;
        while i < read.paras.len()
            invariant
                i <= read.paras.len(),
                paras == texts(read.paras@),
                texts(lines@) == grep_lines(paras.take(i as int), regex@, src_file@),
            decreases read.paras.len() - i,
        {
            assert(paras.take(i + 1).drop_last() =~= paras.take(i as int));
            if is_match(regex, read.paras[i].as_str()) {
                let ghost listed = texts(lines@);
                let line = join3(src_file, ": ", read.paras[i].as_str());
                lines.push(line);
                assert(texts(lines@) =~= listed.push(line@));
            }
            i += 1;
        }
        assert(paras.take(read.paras.len() as int) =~= paras);
        Ok(lines)
    }

    /// Gives one line for each value of the attribute that `query` asks
    /// for, on the elements of the part `xml` that it names and that meet
    /// its condition.
    pub fn cat_xml_attribute(query: &AttributeQuery, xml: &[u8], src_file: &str) -> (res: Result<
        Vec<String>,
        DocxError,
    >)
        ensures
            match res {
                Ok(lines) => part_fault(xml@) is None && texts(lines@) == attribute_lines(
                    part_events(xml@),
                    query@,
                    src_file@,
                ),
                Err(e) => exists|offset: u64|
                    e == (DocxError::MalformedMarkup { offset }) && part_fault(xml@) == Some(
                        offset as nat,
                    ),
            },
    {
        let events = match read_events(xml) {
            Ok(events) => events,
            Err(e) => {
                return Err(e);
            },
        };
        let ghost all = event_views(events@);
        let mut lines: Vec<String> = Vec::new();
        assert(all.take(0) =~= Seq::<EventModel>::empty());
        assert(texts(lines@) =~= Seq::<Seq<char>>::empty());
        let mut i: usize = 0;
        while i < events.len()
            invariant
                i <= events.len(),
                all == event_views(events@),
                texts(lines@) == attribute_lines(all.take(i as int), query@, src_file@),
            decreases events.len() - i,
        {
            assert(all.take(i + 1).drop_last() =~= all.take(i as int));
            assert(all.take(i + 1).last() == events@[i as int]@);
            if let Some(value) = value_listed(&events[i], query) {
                let ghost listed = texts(lines@);
                let line = join3(src_file, ": ", value.as_str());
                lines.push(line);
                assert(texts(lines@) =~= listed.push(line@));
            }
            i += 1;
        }
        assert(all.take(events.len() as int) =~= all);
        Ok(lines)
    }
}

} // verus!
