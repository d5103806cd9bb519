//! The style catalogue: from the name under which a style is shown to the
//! identifier by which the paragraphs refer to it.

use crate::bytes::views;
use crate::caseless::{before_caseless, caseless_before};
use crate::dictionary::{Dictionary, DictionaryModel};
use crate::error::DocxError;
use crate::names::{declared_aliases, seed_aliases, tag_matches, WORDDOC_NS};
use crate::reconstruct::{read_root, root_attributes};
use crate::stream::{event_views, part_events, part_fault, read_events};
use crate::text::texts;
use crate::xml::{attribute_views, utf8_text, Attribute, AttributeModel, EventModel, XmlEvent};
use crate::xml_util::XMLUtil;
use vstd::prelude::*;
use vstd::seq_lib::{to_multiset_build, to_multiset_insert};
use vstd::string::StringExecFns;
use vstd::utf8::{decode_utf8, encode_utf8, encode_utf8_decode_utf8, valid_utf8};

verus! {

/// The path of the part that describes the styles.
pub const STYLES_PART: &'static str = "word/styles.xml";

/// The local name of the element that describes a style.
pub const STYLE: &'static str = "style";

/// The local name of the element that gives a style its name.
pub const STYLE_NAME: &'static str = "name";

/// The local name of the attribute that holds the identifier of a style.
pub const STYLE_ID: &'static str = "styleId";

/// The local name of the attribute that holds the value of an element.
pub const STYLE_VALUE: &'static str = "val";

/// Whether the attribute `attr` is the attribute `name` of the namespace, and its value is text.
pub open spec fn is_named(
    attr: Option<AttributeModel>,
    aliases: Seq<Seq<u8>>,
    name: Seq<u8>,
) -> bool {
    attr matches Some(a) && tag_matches(a.key, aliases, name) && valid_utf8(a.value)
}

/// The value of the first of `attrs` that is the attribute `name` of the namespace.
pub open spec fn named_attribute(
    attrs: Seq<Option<AttributeModel>>,
    aliases: Seq<Seq<u8>>,
    name: Seq<u8>,
) -> Option<Seq<char>>
    decreases attrs.len(),
{
    if attrs.len() == 0 {
        None
    } else {
        match named_attribute(attrs.drop_last(), aliases, name) {
            Some(value) => Some(value),
            None => if is_named(attrs.last(), aliases, name) {
                Some(decode_utf8(attrs.last()->0.value))
            } else {
                None
            },
        }
    }
}

/// An attribute found among the first `n` attributes is the one found among all of them.
pub proof fn lemma_named_attribute(
    attrs: Seq<Option<AttributeModel>>,
    aliases: Seq<Seq<u8>>,
    name: Seq<u8>,
    n: int,
)
    requires
        0 <= n <= attrs.len(),
        named_attribute(attrs.take(n), aliases, name) is Some,
    ensures
        named_attribute(attrs, aliases, name) == named_attribute(attrs.take(n), aliases, name),
    decreases attrs.len() - n,
{
    if n < attrs.len() {
        assert(attrs.take(n + 1).drop_last() =~= attrs.take(n));
        lemma_named_attribute(attrs, aliases, name, n + 1);
    } else {
        assert(attrs.take(n) =~= attrs);
    }
}

/// The mathematical value of the state in which the styles part is read.
pub struct StyleScan {
    pub root_seen: bool,
    pub aliases: Seq<Seq<u8>>,
    /// The identifier of the style that is being described; empty outside a style.
    pub inside_style: Seq<char>,
    pub styles: DictionaryModel,
    /// The name of the attribute that an element lacks, where one does.
    pub failed: Option<Seq<char>>,
}

impl StyleScan {
    /// The state before the first event.
    pub open spec fn start() -> StyleScan {
        StyleScan {
            root_seen: false,
            aliases: seq![encode_utf8(WORDDOC_NS@)],
            inside_style: Seq::empty(),
            styles: DictionaryModel::empty(true),
            failed: None,
        }
    }

    /// The element that names the style that is being described has been read.
    pub open spec fn name_tag(self, attrs: Seq<Option<AttributeModel>>) -> StyleScan {
        match named_attribute(attrs, self.aliases, encode_utf8(STYLE_VALUE@)) {
            Some(display_name) => StyleScan {
                styles: self.styles.insert(display_name, self.inside_style),
                ..self
            },
            None => StyleScan { failed: Some(STYLE_VALUE@), ..self },
        }
    }

    /// Whether a tag with name `name` names the style that is being described.
    pub open spec fn names_style(self, name: Seq<u8>) -> bool {
        self.inside_style.len() > 0 && tag_matches(name, self.aliases, encode_utf8(STYLE_NAME@))
    }

    /// One event has been read. Nothing follows a failure.
    pub open spec fn step(self, event: EventModel) -> StyleScan {
        if self.failed is Some {
            self
        } else {
            match event {
                EventModel::Empty(n, c) => if self.names_style(event.name()) {
                    self.name_tag(root_attributes(n, c))
                } else {
                    self
                },
                EventModel::Start(n, c) => {
                    let attrs = root_attributes(n, c);
                    let rooted = if self.root_seen {
                        self
                    } else {
                        StyleScan {
                            root_seen: true,
                            aliases: self.aliases + declared_aliases(attrs, self.aliases[0]),
                            ..self
                        }
                    };
                    if tag_matches(event.name(), rooted.aliases, encode_utf8(STYLE@)) {
                        match named_attribute(attrs, rooted.aliases, encode_utf8(STYLE_ID@)) {
                            Some(id) => StyleScan { inside_style: id, ..rooted },
                            None => StyleScan { failed: Some(STYLE_ID@), ..rooted },
                        }
                    } else if rooted.names_style(event.name()) {
                        rooted.name_tag(attrs)
                    } else {
                        rooted
                    }
                },
                EventModel::End(_) => if tag_matches(
                    event.name(),
                    self.aliases,
                    encode_utf8(STYLE@),
                ) {
                    StyleScan { inside_style: Seq::empty(), ..self }
                } else {
                    self
                },
                _ => self,
            }
        }
    }
}

/// The state after the events `events` of the styles part.
pub open spec fn style_scan(events: Seq<EventModel>) -> StyleScan
    decreases events.len(),
{
    if events.len() == 0 {
        StyleScan::start()
    } else {
        style_scan(events.drop_last()).step(events.last())
    }
}

/// Once an attribute has been missed, further events change nothing.
pub proof fn lemma_style_failure_stays(events: Seq<EventModel>, n: int)
    requires
        0 <= n <= events.len(),
        style_scan(events.take(n)).failed is Some,
    ensures
        style_scan(events) == style_scan(events.take(n)),
    decreases events.len() - n,
{
    if n < events.len() {
        assert(events.take(n + 1).drop_last() =~= events.take(n));
        lemma_style_failure_stays(events, n + 1);
    } else {
        assert(events.take(n) =~= events);
    }
}

/// Whether `a` may stand directly before `b` in a list sorted without regard to case.
pub open spec fn in_order(a: Seq<char>, b: Seq<char>) -> bool {
    caseless_before(a, b) || !caseless_before(b, a)
}

/// Whether each of `names` may stand directly before the next.
pub open spec fn sorted(names: Seq<Seq<char>>) -> bool {
    forall|i: int, j: int|
        0 <= i && j == i + 1 && j < names.len() ==> in_order(
            #[trigger] names[i],
            #[trigger] names[j],
        )
}

/// The names `names` in sorted order, case left out of account.
pub fn sorted_names(names: &Vec<String>) -> (res: Vec<String>)
    ensures
        texts(res@).to_multiset() == texts(names@).to_multiset(),
        sorted(texts(res@)),
{
    let ghost all = texts(names@);
    let mut res: Vec<String> = Vec::new();
    assert(all.take(0) =~= Seq::<Seq<char>>::empty());
    assert(texts(res@) =~= Seq::<Seq<char>>::empty());
    let mut i: usize = 0;
    while i < names.len()
        invariant
            i <= names.len(),
            all == texts(names@),
            texts(res@).to_multiset() == all.take(i as int).to_multiset(),
            sorted(texts(res@)),
        decreases names.len() - i,
    {
        let name = names[i].clone();
        let mut p: usize = res.len();
        while p > 0 && before_caseless(name.as_str(), res[p - 1].as_str())
            invariant
                p <= res.len(),
                p < res.len() ==> caseless_before(name@, res@[p as int]@),
            decreases p,
        {
            p -= 1;
        }
        let ghost before = texts(res@);
        res.insert(p, name);
        proof {
            let after = texts(res@);
            assert(after =~= before.insert(p as int, name@));
            to_multiset_insert(before, p as int, name@);
            assert(all.take(i + 1) =~= all.take(i as int).push(name@));
            to_multiset_build(all.take(i as int), name@);
            assert forall|a: int, b: int| 0 <= a && b == a + 1 && b < after.len() implies in_order(
                #[trigger] after[a],
                #[trigger] after[b],
            ) by {
                if b < p {
                    assert(in_order(before[a], before[b]));
                } else if b == p {
                    assert(after[a] == before[a]);
                } else if a == p {
                    assert(after[b] == before[p as int]);
                } else {
                    assert(after[a] == before[a - 1] && after[b] == before[b - 1]);
                    assert(in_order(before[a - 1], before[b - 1]));
                }
            }
        }
        i += 1;
    }
    assert(all.take(names.len() as int) =~= all);
    res
}

impl XMLUtil {
    /// The value of the first of `attrs` that is the attribute `name` of the namespace.
    pub fn get_attribute(attrs: &Vec<Option<Attribute>>, nslist: &Vec<Vec<u8>>, name: &str) -> (res:
        Option<String>)
        ensures
            match res {
                Some(value) => named_attribute(
                    attribute_views(attrs@),
                    views(nslist@),
                    encode_utf8(name@),
                ) == Some(value@),
                None => named_attribute(
                    attribute_views(attrs@),
                    views(nslist@),
                    encode_utf8(name@),
                ) is None,
            },
    {
        let ghost all = attribute_views(attrs@);
        assert(all.take(0) =~= Seq::<Option<AttributeModel>>::empty());
        let mut i: usize = 0;
        while i < attrs.len()
            invariant
                i <= attrs.len(),
                all == attribute_views(attrs@),
                named_attribute(all.take(i as int), views(nslist@), encode_utf8(name@)) is None,
            decreases attrs.len() - i,
        {
            assert(all.take(i + 1).drop_last() =~= all.take(i as int));
            assert(all.take(i + 1).last() == all[i as int]);
            if let Some(attr) = &attrs[i] {
                if Self::match_tag(attr.key.as_slice(), nslist, name) {
                    if let Some(value) = utf8_text(attr.value.as_slice()) {
                        proof {
                            encode_utf8_decode_utf8(value@);
                            lemma_named_attribute(all, views(nslist@), encode_utf8(name@), i + 1);
                        }
                        return Some(String::from_str(value));
                    }
                }
            }
            i += 1;
        }
        assert(all.take(attrs.len() as int) =~= all);
        None
    }

    /// Reads the styles part `xml`: for each name under which a style is
    /// shown, the identifier of the style. Names are told apart without
    /// regard to case.
    pub fn get_all_styles(xml: &[u8]) -> (res: Result<Dictionary, DocxError>)
        ensures
            match res {
                Ok(styles) => part_fault(xml@) is None && style_scan(part_events(xml@)).failed
                    is None && styles@ == style_scan(part_events(xml@)).styles && styles.wf(),
                Err(DocxError::MalformedMarkup { offset }) => part_fault(xml@) == Some(
                    offset as nat,
                ),
                Err(DocxError::MissingAttribute { name }) => part_fault(xml@) is None
                    && style_scan(part_events(xml@)).failed == Some(name@),
                Err(_) => false,
            },
    {
        let events = match read_events(xml) {
            Ok(events) => events,
            Err(e) => {
                return Err(e);
            },
        };
        let ghost all = event_views(events@);
        let mut style_map = Dictionary::new(true);
        let mut nslist = seed_aliases();
        let mut inside_style = String::new();
        let mut first_element = true;
        assert(views(nslist@).len() == nslist.len());
        assert(all.take(0) =~= Seq::<EventModel>::empty());
        let mut i: usize = 0;
        while i < events.len()
            invariant
                i <= events.len(),
                all == event_views(events@),
                all == part_events(xml@),
                part_fault(xml@) is None,
                style_map.wf(),
                nslist.len() >= 1,
                first_element ==> nslist.len() == 1,
                style_scan(all.take(i as int)) == (StyleScan {
                    root_seen: !first_element,
                    aliases: views(nslist@),
                    inside_style: inside_style@,
                    styles: style_map@,
                    failed: None,
                }),
            decreases events.len() - i,
        {
            assert(all.take(i + 1).drop_last() =~= all.take(i as int));
            assert(all.take(i + 1).last() == events@[i as int]@);
            let event = &events[i];
            match event {
                XmlEvent::Empty(n, c) => {
                    let name = event.name();
                    if !inside_style.as_str().is_empty() && Self::match_tag(
                        name.as_slice(),
                        &nslist,
                        STYLE_NAME,
                    ) {
                        let attrs = read_root(*n, c.as_slice());
                        match Self::get_attribute(&attrs, &nslist, STYLE_VALUE) {
                            Some(display_name) => {
                                style_map.insert(display_name, inside_style.clone());
                            },
                            None => {
                                proof {
                                    lemma_style_failure_stays(all, i + 1);
                                }
                                return Err(
                                    DocxError::MissingAttribute {
                                        name: String::from_str(STYLE_VALUE),
                                    },
                                );
                            },
                        }
                    }
                },
                XmlEvent::Start(n, c) => {
                    let attrs = read_root(*n, c.as_slice());
                    if first_element {
                        first_element = false;
                        let ghost seeded = views(nslist@);
                        assert(seeded.len() == nslist.len());
                        Self::read_namespaces(&attrs, &mut nslist);
                        assert(views(nslist@).len() == nslist.len());
                        assert(views(nslist@).len() >= seeded.len());
                    }
                    let name = event.name();
                    if Self::match_tag(name.as_slice(), &nslist, STYLE) {
                        match Self::get_attribute(&attrs, &nslist, STYLE_ID) {
                            Some(style_id) => {
                                inside_style = style_id;
                            },
                            None => {
                                proof {
                                    lemma_style_failure_stays(all, i + 1);
                                }
                                return Err(
                                    DocxError::MissingAttribute {
                                        name: String::from_str(STYLE_ID),
                                    },
                                );
                            },
                        }
                    } else if !inside_style.as_str().is_empty() && Self::match_tag(
                        name.as_slice(),
                        &nslist,
                        STYLE_NAME,
                    ) {
                        match Self::get_attribute(&attrs, &nslist, STYLE_VALUE) {
                            Some(display_name) => {
                                style_map.insert(display_name, inside_style.clone());
                            },
                            None => {
                                proof {
                                    lemma_style_failure_stays(all, i + 1);
                                }
                                return Err(
                                    DocxError::MissingAttribute {
                                        name: String::from_str(STYLE_VALUE),
                                    },
                                );
                            },
                        }
                    }
                },
                XmlEvent::End(_) => {
                    let name = event.name();
                    if Self::match_tag(name.as_slice(), &nslist, STYLE) {
                        inside_style = String::new();
                    }
                },
                _ => {},
            }
            i += 1;
        }
        assert(all.take(events.len() as int) =~= all);
        Ok(style_map)
    }
}

} // verus!
