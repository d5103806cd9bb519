//! What a package says of its parts: the content type of each, the
//! extension that stands for a content type, and from there the parts that
//! hold the relationships of the parts of a document.

use crate::bytes::bytes_eq;
use crate::dictionary::{Dictionary, DictionaryModel};
use crate::error::DocxError;
use crate::file_util::{normalized, FileUtil, SEPARATOR};
use crate::names::{local_name, local_of};
use crate::stream::{event_views, part_events, part_fault, read_events};
use crate::text::{from_chars, same_text, texts, to_chars};
use crate::xml::{
    tag_attribute_value, utf8_text, xml_attribute_value,
    EventModel, XmlEvent,
};
use crate::xml_util::XMLUtil;
use vstd::prelude::*;
use vstd::string::StringExecFns;
use vstd::utf8::{decode_utf8, encode_utf8, encode_utf8_decode_utf8, valid_utf8};

verus! {

/// The content type of the main part of a word-processing document.
pub const WORDDOC_MT: &'static str =
    "application/vnd.openxmlformats-officedocument.wordprocessingml.document.main+xml";

/// The content type of a part that holds relationships.
pub const RELATION_MT: &'static str = "application/vnd.openxmlformats-package.relationships+xml";

/// The path of the part that lists the content types.
pub const CONTENT_TYPES_PART: &'static str = "[Content_Types].xml";

/// The local name of the element that holds the content types.
pub const TYPES: &'static str = "Types";

/// The local name of the element that registers an extension for a content type.
pub const DEFAULT: &'static str = "Default";

/// The local name of the element that gives the content type of one part.
pub const OVERRIDE: &'static str = "Override";

/// The attribute that holds an extension.
pub const EXTENSION: &'static str = "Extension";

/// The attribute that holds a content type.
pub const CONTENT_TYPE: &'static str = "ContentType";

/// The attribute that holds the name of a part.
pub const PART_NAME: &'static str = "PartName";

/// The content of a tag as text, where it is text.
pub open spec fn tag_text(name_len: nat, content: Seq<u8>) -> Option<Seq<char>> {
    if valid_utf8(content) && name_len <= content.len() {
        Some(decode_utf8(content))
    } else {
        None
    }
}

/// The value of the attribute `key` of a tag as text, where the tag has the
/// attribute and the value is text.
pub open spec fn attribute_text(name_len: nat, content: Seq<u8>, key: Seq<char>) -> Option<
    Seq<char>,
> {
    match tag_text(name_len, content) {
        Some(text) => match xml_attribute_value(text, name_len, encode_utf8(key)) {
            Some(value) => if valid_utf8(value) {
                Some(decode_utf8(value))
            } else {
                None
            },
            None => None,
        },
        None => None,
    }
}

/// Reads the value of the attribute `key` of a tag. A tag whose content is
/// not text has no attribute that can be read; a pass over a part meets no
/// such tag, since the part is given up where it is read.
pub fn read_attribute(name_len: usize, content: &[u8], key: &str) -> (res: Option<String>)
    ensures
        match res {
            Some(value) => attribute_text(name_len as nat, content@, key@) == Some(value@),
            None => attribute_text(name_len as nat, content@, key@) is None,
        },
{
    if name_len > content.len() {
        return None;
    }
    match utf8_text(content) {
        Some(text) => {
            proof {
                encode_utf8_decode_utf8(text@);
            }
            match tag_attribute_value(text, name_len, key.as_bytes()) {
                Some(value) => match utf8_text(value.as_slice()) {
                    Some(value_text) => {
                        proof {
                            encode_utf8_decode_utf8(value_text@);
                        }
                        Some(String::from_str(value_text))
                    },
                    None => None,
                },
                None => None,
            }
        },
        None => None,
    }
}

/// The mathematical value of what the content types part says.
pub struct ContentTypes {
    /// Whether the element that holds the types is open.
    pub in_types: bool,
    /// The extension registered for each content type.
    pub defaults: DictionaryModel,
    /// The content type of each part, by its path.
    pub mappings: DictionaryModel,
}

/// The name of a part without the `/` that it starts with.
pub open spec fn relative_name(name: Seq<char>) -> Seq<char> {
    if name.len() > 0 && name[0] == SEPARATOR {
        name.skip(1)
    } else {
        name
    }
}

/// What an opening or self-closing tag adds to the content types.
pub open spec fn types_tag(
    state: ContentTypes,
    event: EventModel,
    name_len: nat,
    content: Seq<u8>,
) -> ContentTypes {
    let local = local_name(event.name());
    if local == encode_utf8(TYPES@) {
        ContentTypes { in_types: true, ..state }
    } else if !state.in_types {
        state
    } else if local == encode_utf8(DEFAULT@) {
        match (
            attribute_text(name_len, content, EXTENSION@),
            attribute_text(name_len, content, CONTENT_TYPE@),
        ) {
            (Some(extension), Some(content_type)) => ContentTypes {
                defaults: state.defaults.insert(content_type, extension),
                ..state
            },
            _ => state,
        }
    } else if local == encode_utf8(OVERRIDE@) {
        match (
            attribute_text(name_len, content, PART_NAME@),
            attribute_text(name_len, content, CONTENT_TYPE@),
        ) {
            (Some(part_name), Some(content_type)) => ContentTypes {
                mappings: state.mappings.insert(
                    normalized(relative_name(part_name)),
                    content_type,
                ),
                ..state
            },
            _ => state,
        }
    } else {
        state
    }
}

/// What the events of the content types part say.
pub open spec fn content_types(events: Seq<EventModel>) -> ContentTypes
    decreases events.len(),
{
    if events.len() == 0 {
        ContentTypes {
            in_types: false,
            defaults: DictionaryModel::empty(false),
            mappings: DictionaryModel::empty(false),
        }
    } else {
        let before = content_types(events.drop_last());
        match events.last() {
            EventModel::Start(n, c) | EventModel::Empty(n, c) => types_tag(
                before,
                events.last(),
                n,
                c,
            ),
            EventModel::End(_) => if local_name(events.last().name()) == encode_utf8(TYPES@) {
                ContentTypes { in_types: false, ..before }
            } else {
                before
            },
            _ => before,
        }
    }
}

/// The keys of a dictionary whose value is `value`, in their order.
pub open spec fn keys_with_value(
    keys: Seq<Seq<char>>,
    values: Seq<Seq<char>>,
    value: Seq<char>,
) -> Seq<Seq<char>>
    decreases keys.len(),
{
    if keys.len() == 0 || values.len() != keys.len() {
        Seq::empty()
    } else {
        let before = keys_with_value(keys.drop_last(), values.drop_last(), value);
        if values.last() == value {
            before.push(keys.last())
        } else {
            before
        }
    }
}

/// The index of the last `/` of `path`; -1 where it has none.
pub open spec fn last_separator(path: Seq<char>) -> int
    decreases path.len(),
{
    if path.len() == 0 {
        -1
    } else if path.last() == SEPARATOR {
        path.len() - 1
    } else {
        last_separator(path.drop_last())
    }
}

/// The path of the part that holds the relationships of the part `path`,
/// where `extension` is the extension of such parts: in a directory beside
/// the part, named by the extension, under the part's name with the
/// extension added. `None` for a part that lies in no directory.
pub open spec fn relationships_path(path: Seq<char>, extension: Seq<char>) -> Option<Seq<char>> {
    let i = last_separator(path);
    if i < 0 {
        None
    } else {
        Some(
            normalized(
                path.take(i) + seq![SEPARATOR, '_'] + extension + path.skip(i) + seq!['.']
                    + extension,
            ),
        )
    }
}

/// The paths of the parts that hold the relationships of the parts `files`;
/// `None` where one of them lies in no directory.
pub open spec fn relationships_paths(files: Seq<Seq<char>>, extension: Seq<char>) -> Option<
    Seq<Seq<char>>,
>
    decreases files.len(),
{
    if files.len() == 0 {
        Some(Seq::empty())
    } else {
        match relationships_paths(files.drop_last(), extension) {
            Some(before) => match relationships_path(files.last(), extension) {
                Some(path) => Some(before.push(path)),
                None => None,
            },
            None => None,
        }
    }
}

/// The first of `files` that lies in no directory, where there is one.
pub open spec fn first_unplaced(files: Seq<Seq<char>>) -> Option<Seq<char>>
    decreases files.len(),
{
    if files.len() == 0 {
        None
    } else {
        match first_unplaced(files.drop_last()) {
            Some(path) => Some(path),
            None => if last_separator(files.last()) < 0 {
                Some(files.last())
            } else {
                None
            },
        }
    }
}

/// Tells whether the local part of the qualified name `name` is `local`.
fn has_local_name(name: &[u8], local: &str) -> (res: bool)
    ensures
        res == (local_name(name@) == encode_utf8(local@)),
{
    let found = local_of(name);
    bytes_eq(found.as_slice(), local.as_bytes())
}

/// Finds the last `/` of a path.
fn find_last_separator(path: &Vec<char>) -> (res: Option<usize>)
    ensures
        match res {
            Some(i) => i == last_separator(path@) && i < path.len(),
            None => last_separator(path@) == -1,
        },
{
    let mut n: usize = path.len();
    assert(path@.take(n as int) =~= path@);
    while n > 0
        invariant
            n <= path.len(),
            last_separator(path@) == last_separator(path@.take(n as int)),
        decreases n,
    {
        assert(path@.take(n as int).drop_last() =~= path@.take(n - 1));
        if path[n - 1] == SEPARATOR {
            return Some(n - 1);
        }
        n -= 1;
    }
    None
}

/// What the content types part of a package says.
pub struct PartTypes {
    pub defaults: Dictionary,
    pub mappings: Dictionary,
}

impl XMLUtil {
    /// Reads the content types part `xml`: the extension registered for each
    /// content type, and the content type of each part.
    pub fn get_content_types(xml: &[u8]) -> (res: Result<PartTypes, DocxError>)
        ensures
            match res {
                Ok(types) => part_fault(xml@) is None && types.defaults@ == content_types(
                    part_events(xml@),
                ).defaults && types.mappings@ == content_types(part_events(xml@)).mappings
                    && types.defaults.wf() && types.mappings.wf(),
                Err(e) => exists|offset: u64|
                    e == (DocxError::MalformedMarkup { offset }) && part_fault(xml@) == Some(
                        offset as nat,
                    ),
            },
    {
        let events = match read_events(xml) {
            Ok(events) => events,
            Err(e) => {
                return Err(e);
            },
        };
        let ghost all = event_views(events@);
        let mut defaults = Dictionary::new(false);
        let mut mappings = Dictionary::new(false);
        let mut in_types = false;
        assert(all.take(0) =~= Seq::<EventModel>::empty());
        let mut i: usize = 0;
        while i < events.len()
            invariant
                i <= events.len(),
                all == event_views(events@),
                defaults.wf(),
                mappings.wf(),
                content_types(all.take(i as int)) == (ContentTypes {
                    in_types,
                    defaults: defaults@,
                    mappings: mappings@,
                }),
            decreases events.len() - i,
        {
            assert(all.take(i + 1).drop_last() =~= all.take(i as int));
            assert(all.take(i + 1).last() == events@[i as int]@);
            let event = &events[i];
            match event {
                XmlEvent::Start(n, c) | XmlEvent::Empty(n, c) => {
                    let name = event.name();
                    if has_local_name(name.as_slice(), TYPES) {
                        in_types = true;
                    } else if in_types {
                        if has_local_name(name.as_slice(), DEFAULT) {
                            let extension = read_attribute(*n, c.as_slice(), EXTENSION);
                            let content_type = read_attribute(*n, c.as_slice(), CONTENT_TYPE);
                            if let Some(extension) = extension {
                                if let Some(content_type) = content_type {
                                    defaults.insert(content_type, extension);
                                }
                            }
                        } else if has_local_name(name.as_slice(), OVERRIDE) {
                            let part_name = read_attribute(*n, c.as_slice(), PART_NAME);
                            let content_type = read_attribute(*n, c.as_slice(), CONTENT_TYPE);
                            if let Some(part_name) = part_name {
                                if let Some(content_type) = content_type {
                                    let chars = to_chars(part_name.as_str());
                                    let relative = if chars.len() > 0 && chars[0] == SEPARATOR {
                                        from_chars(&chars, 1)
                                    } else {
                                        let whole = from_chars(&chars, 0);
                                        assert(chars@.skip(0) =~= chars@);
                                        whole
                                    };
                                    mappings.insert(
                                        FileUtil::normalize_path(relative.as_str()),
                                        content_type,
                                    );
                                }
                            }
                        }
                    }
                },
                XmlEvent::End(_) => {
                    let name = event.name();
                    if has_local_name(name.as_slice(), TYPES) {
                        in_types = false;
                    }
                },
                _ => {},
            }
            i += 1;
        }
        assert(all.take(events.len() as int) =~= all);
        Ok(PartTypes { defaults, mappings })
    }

    /// Reads the content types part `xml` and gives the extensions that it
    /// registers, and the paths of the parts of content type `content_type`.
    pub fn get_files_with_content_type(xml: &[u8], content_type: &str) -> (res: Result<
        (Dictionary, Vec<String>),
        DocxError,
    >)
        ensures
            match res {
                Ok((defaults, files)) => part_fault(xml@) is None && defaults@ == content_types(
                    part_events(xml@),
                ).defaults && defaults.wf() && texts(files@) == keys_with_value(
                    content_types(part_events(xml@)).mappings.keys,
                    content_types(part_events(xml@)).mappings.values,
                    content_type@,
                ),
                Err(e) => exists|offset: u64|
                    e == (DocxError::MalformedMarkup { offset }) && part_fault(xml@) == Some(
                        offset as nat,
                    ),
            },
    {
        let types = match Self::get_content_types(xml) {
            Ok(types) => types,
            Err(e) => {
                return Err(e);
            },
        };
        let PartTypes { defaults, mappings } = types;
        let ghost keys = texts(mappings.keys@);
        let ghost values = texts(mappings.values@);
        let mut result: Vec<String> = Vec::new();
        assert(keys.take(0) =~= Seq::<Seq<char>>::empty());
        assert(texts(result@) =~= Seq::<Seq<char>>::empty());
        let mut i: usize = 0;
        while i < mappings.keys.len()
            invariant
                i <= mappings.keys.len(),
                mappings.wf(),
                keys == texts(mappings.keys@),
                values == texts(mappings.values@),
                texts(result@) == keys_with_value(
                    keys.take(i as int),
                    values.take(i as int),
                    content_type@,
                ),
            decreases mappings.keys.len() - i,
        {
            assert(keys.take(i + 1).drop_last() =~= keys.take(i as int));
            assert(values.take(i + 1).drop_last() =~= values.take(i as int));
            if same_text(mappings.values[i].as_str(), content_type) {
                let ghost listed = texts(result@);
                let file = mappings.keys[i].clone();
                result.push(file);
                assert(texts(result@) =~= listed.push(file@));
            }
            i += 1;
        }
        assert(keys.take(mappings.keys.len() as int) =~= keys);
        assert(values.take(mappings.keys.len() as int) =~= values);
        Ok((defaults, result))
    }

    /// The path of the part that holds the relationships of the part `file`.
    pub fn relationship_part_for(file: &str, rels_extension: &str) -> (res: Option<String>)
        ensures
            match res {
                Some(path) => relationships_path(file@, rels_extension@) == Some(path@),
                None => relationships_path(file@, rels_extension@) is None,
            },
    {
        let chars = to_chars(file);
        match find_last_separator(&chars) {
            Some(last_slash) => {
                let mut head = String::new();
                let mut k: usize = 0;
                while k < last_slash
                    invariant
                        k <= last_slash < chars.len(),
                        head@ == chars@.take(k as int),
                    decreases last_slash - k,
                {
                    head.push(chars[k]);
                    k += 1;
                    assert(head@ =~= chars@.take(k as int));
                }
                let mut new_fn = head;
                new_fn.push(SEPARATOR);
                new_fn.push('_');
                new_fn.append(rels_extension);
                let tail = from_chars(&chars, last_slash);
                new_fn.append(tail.as_str());
                new_fn.push('.');
                new_fn.append(rels_extension);
                assert(new_fn@ =~= file@.take(last_slash as int) + seq![SEPARATOR, '_']
                    + rels_extension@ + file@.skip(last_slash as int) + seq!['.']
                    + rels_extension@);
                Some(FileUtil::normalize_path(new_fn.as_str()))
            },
            None => None,
        }
    }

    /// Reads the content types part `xml` and gives the paths of the parts
    /// that hold the relationships of the main parts of the document.
    pub fn get_rel_files(xml: &[u8]) -> (res: Result<Vec<String>, DocxError>)
        ensures
            ({
                let types = content_types(part_events(xml@));
                let files = keys_with_value(
                    types.mappings.keys,
                    types.mappings.values,
                    WORDDOC_MT@,
                );
                match res {
                    Ok(paths) => {
                        &&& part_fault(xml@) is None
                        &&& types.defaults.get(RELATION_MT@) matches Some(extension)
                        &&& relationships_paths(files, extension) == Some(texts(paths@))
                    },
                    Err(DocxError::MalformedMarkup { offset }) => part_fault(xml@) == Some(
                        offset as nat,
                    ),
                    Err(DocxError::Undeclared { content_type }) => part_fault(xml@) is None
                        && types.defaults.get(RELATION_MT@) is None && content_type@
                        == RELATION_MT@,
                    Err(DocxError::Unplaced { path }) => {
                        &&& part_fault(xml@) is None
                        &&& types.defaults.get(RELATION_MT@) is Some
                        &&& first_unplaced(files) == Some(path@)
                    },
                    Err(_) => false,
                }
            }),
    {
        let (defaults, files) = match Self::get_files_with_content_type(xml, WORDDOC_MT) {
            Ok(found) => found,
            Err(e) => {
                return Err(e);
            },
        };
        let rels_extension = match defaults.get(RELATION_MT) {
            Some(extension) => extension,
            None => {
                return Err(DocxError::Undeclared { content_type: String::from_str(RELATION_MT) });
            },
        };
        let ghost all = texts(files@);
        let mut rels_files: Vec<String> = Vec::new();
        assert(all.take(0) =~= Seq::<Seq<char>>::empty());
        assert(texts(rels_files@) =~= Seq::<Seq<char>>::empty());
        let mut i: usize = 0;
        while i < files.len()
            invariant
                i <= files.len(),
                all == texts(files@),
                part_fault(xml@) is None,
                all == keys_with_value(
                    content_types(part_events(xml@)).mappings.keys,
                    content_types(part_events(xml@)).mappings.values,
                    WORDDOC_MT@,
                ),
                content_types(part_events(xml@)).defaults.get(RELATION_MT@) == Some(
                    rels_extension@,
                ),
                relationships_paths(all.take(i as int), rels_extension@) == Some(
                    texts(rels_files@),
                ),
                first_unplaced(all.take(i as int)) is None,
            decreases files.len() - i,
        {
            assert(all.take(i + 1).drop_last() =~= all.take(i as int));
            match Self::relationship_part_for(files[i].as_str(), rels_extension.as_str()) {
                Some(path) => {
                    let ghost listed = texts(rels_files@);
                    rels_files.push(path);
                    assert(texts(rels_files@) =~= listed.push(path@));
                },
                None => {
                    let path = files[i].clone();
                    proof {
                        assert(all.take(i + 1).last() == files@[i as int]@);
                        assert(first_unplaced(all.take(i + 1)) == Some(files@[i as int]@));
                        lemma_first_unplaced(all, i + 1);
                    }
                    return Err(DocxError::Unplaced { path });
                },
            }
            i += 1;
        }
        assert(all.take(files.len() as int) =~= all);
        Ok(rels_files)
    }
}

/// A part without directory that is the first among the first `n` parts is the first of all.
pub proof fn lemma_first_unplaced(files: Seq<Seq<char>>, n: int)
    requires
        0 <= n <= files.len(),
        first_unplaced(files.take(n)) is Some,
    ensures
        first_unplaced(files) == first_unplaced(files.take(n)),
    decreases files.len() - n,
{
    if n < files.len() {
        assert(files.take(n + 1).drop_last() =~= files.take(n));
        lemma_first_unplaced(files, n + 1);
    } else {
        assert(files.take(n) =~= files);
    }
}

} // verus!
