//! The attribute replacement engine: the values of the attributes of a tag
//! are rewritten by a rule, and the tag is put together again.

use crate::bytes::{append_bytes, bytes_eq, copy_bytes, copy_range, views};
use crate::error::DocxError;
use crate::names::{
    declared_aliases, name_prefix, prefix_of, seed_aliases, tag_matches, COLON, WORDDOC_NS,
};
use crate::pattern::{is_match, regex_matches, regex_replaced, replace_all, Matcher};
use crate::reconstruct::{read_root, root_attributes, tag_attribute_list};
use crate::stream::{event_views, part_events, part_fault, read_events};
use crate::text::texts;
use crate::xml::{
    attribute_views, tag_attributes, utf8_text, write_event, markup_of, Attribute, AttributeModel,
    EventModel, XmlEvent, SPACE,
};
use crate::xml_util::XMLUtil;
use vstd::prelude::*;
use vstd::string::StringExecFns;
use vstd::utf8::{decode_utf8, encode_utf8, encode_utf8_decode_utf8, valid_utf8};

verus! {

/// The byte `=`.
pub const EQUALS: u8 = 0x3d;

/// The byte `"`.
pub const QUOTE: u8 = 0x22;

/// How the value of an attribute is rewritten.
pub enum Rule<'a> {
    /// A value in which the regular expression matches has every match replaced.
    Pattern(&'a Matcher, &'a str),
    /// A value that is equal to the first text becomes the second.
    Exact(&'a str, &'a str),
}

/// The mathematical value of a [`Rule`].
pub enum RuleModel {
    Pattern(Seq<char>, Seq<char>),
    Exact(Seq<char>, Seq<char>),
}

impl<'a> View for Rule<'a> {
    type V = RuleModel;

    open spec fn view(&self) -> RuleModel {
        match self {
            Rule::Pattern(regex, replacement) => RuleModel::Pattern(
                regex@,
                replacement@,
            ),
            Rule::Exact(from, to) => RuleModel::Exact(from@, to@),
        }
    }
}

impl RuleModel {
    /// Whether the rule rewrites the value `value`.
    pub open spec fn hits(self, value: Seq<char>) -> bool {
        match self {
            RuleModel::Pattern(pattern, _) => regex_matches(pattern, value).len() > 0,
            RuleModel::Exact(from, _) => value == from,
        }
    }

    /// What the rule makes of a value that it rewrites.
    pub open spec fn result(self, value: Seq<char>) -> Seq<char> {
        match self {
            RuleModel::Pattern(pattern, replacement) => regex_replaced(pattern, value, replacement),
            RuleModel::Exact(_, to) => to,
        }
    }
}

impl<'a> Rule<'a> {
    /// Tells whether the rule rewrites the value `value`.
    pub fn hits(&self, value: &str) -> (res: bool)
        ensures
            res == self@.hits(value@),
    {
        match self {
            Rule::Pattern(regex, _) => is_match(regex, value),
            Rule::Exact(from, _) => {
                let same = bytes_eq(value.as_bytes(), from.as_bytes());
                proof {
                    encode_utf8_decode_utf8(value@);
                    encode_utf8_decode_utf8(from@);
                }
                same
            },
        }
    }

    /// Rewrites the value `value`.
    pub fn result(&self, value: &str) -> (res: String)
        ensures
            res@ == self@.result(value@),
    {
        match self {
            Rule::Pattern(regex, replacement) => replace_all(regex, value, replacement),
            Rule::Exact(_, to) => String::from_str(to),
        }
    }
}

/// Whether the rule rewrites the attribute `attr`, where only the attributes
/// with key `key` are looked at, if one is given.
pub open spec fn attr_hit(attr: AttributeModel, key: Option<Seq<u8>>, rule: RuleModel) -> bool {
    &&& key matches Some(k) ==> k == attr.key
    &&& valid_utf8(attr.key)
    &&& valid_utf8(attr.value)
    &&& rule.hits(decode_utf8(attr.value))
}

/// The attribute `attr` after the rule.
pub open spec fn attr_after(
    attr: AttributeModel,
    key: Option<Seq<u8>>,
    rule: RuleModel,
) -> AttributeModel {
    if attr_hit(attr, key, rule) {
        AttributeModel { key: attr.key, value: encode_utf8(rule.result(decode_utf8(attr.value))) }
    } else {
        attr
    }
}

/// The line that reports that the attribute `attr` is rewritten.
pub open spec fn attr_line(src_file: Seq<char>, attr: AttributeModel) -> Seq<char> {
    src_file + ": "@ + decode_utf8(attr.key) + "="@ + decode_utf8(attr.value)
}

/// The content of a tag with name `name` after the rule: the name, and each
/// attribute that could be read, its value in double quotes.
pub open spec fn content_after(
    name: Seq<u8>,
    attrs: Seq<Option<AttributeModel>>,
    key: Option<Seq<u8>>,
    rule: RuleModel,
) -> Seq<u8>
    decreases attrs.len(),
{
    if attrs.len() == 0 {
        name
    } else {
        let before = content_after(name, attrs.drop_last(), key, rule);
        match attrs.last() {
            Some(attr) => before + seq![SPACE] + attr.key + seq![EQUALS, QUOTE] + attr_after(
                attr,
                key,
                rule,
            ).value + seq![QUOTE],
            None => before,
        }
    }
}

/// The lines that report the attributes that the rule rewrites.
pub open spec fn lines_after(
    attrs: Seq<Option<AttributeModel>>,
    key: Option<Seq<u8>>,
    rule: RuleModel,
    src_file: Seq<char>,
) -> Seq<Seq<char>>
    decreases attrs.len(),
{
    if attrs.len() == 0 {
        Seq::empty()
    } else {
        let before = lines_after(attrs.drop_last(), key, rule, src_file);
        match attrs.last() {
            Some(attr) => if attr_hit(attr, key, rule) {
                before.push(attr_line(src_file, attr))
            } else {
                before
            },
            None => before,
        }
    }
}

/// What the rule makes of a tag.
pub struct TagUpdate {
    /// The content of the tag: what it was, unless an attribute was rewritten.
    pub content: Vec<u8>,
    /// Whether an attribute was rewritten.
    pub changed: bool,
    /// One line for each attribute that was rewritten.
    pub lines: Vec<String>,
}

/// The mathematical value of a [`TagUpdate`].
pub struct TagUpdateModel {
    pub content: Seq<u8>,
    pub changed: bool,
    pub lines: Seq<Seq<char>>,
}

impl View for TagUpdate {
    type V = TagUpdateModel;

    open spec fn view(&self) -> TagUpdateModel {
        TagUpdateModel { content: self.content@, changed: self.changed, lines: texts(self.lines@) }
    }
}

/// What the rule makes of the tag with content `content`, whose name is
/// `name_len` bytes long and whose attributes are `attrs`. A tag none of
/// whose attributes is rewritten stays as it is.
pub open spec fn tag_after(
    name_len: nat,
    content: Seq<u8>,
    attrs: Seq<Option<AttributeModel>>,
    key: Option<Seq<u8>>,
    rule: RuleModel,
    src_file: Seq<char>,
) -> TagUpdateModel {
    let lines = lines_after(attrs, key, rule, src_file);
    if lines.len() > 0 {
        TagUpdateModel {
            content: content_after(content.take(name_len as int), attrs, key, rule),
            changed: true,
            lines,
        }
    } else {
        TagUpdateModel { content, changed: false, lines }
    }
}

/// What the rule makes of a tag whose attributes are still to be read. A tag
/// whose content is not text stays as it is.
pub open spec fn tag_update(
    name_len: nat,
    content: Seq<u8>,
    key: Option<Seq<u8>>,
    rule: RuleModel,
    src_file: Seq<char>,
) -> TagUpdateModel {
    match tag_attribute_list(name_len, content) {
        Some(attrs) => tag_after(name_len, content, attrs, key, rule, src_file),
        None => TagUpdateModel { content, changed: false, lines: Seq::empty() },
    }
}

/// The view of an optional key.
pub open spec fn key_view(key: Option<&[u8]>) -> Option<Seq<u8>> {
    match key {
        Some(k) => Some(k@),
        None => None,
    }
}

impl XMLUtil {
    /// Rewrites by `rule` the attributes `attrs` of the tag with content
    /// `content`, whose name is `name_len` bytes long. Where `attr_name` is
    /// given, only the attributes with that key are looked at.
    pub fn rewrite_attributes(
        name_len: usize,
        content: &[u8],
        attrs: &Vec<Option<Attribute>>,
        attr_name: Option<&[u8]>,
        rule: &Rule,
        src_file: &str,
    ) -> (res: TagUpdate)
        requires
            name_len <= content@.len(),
        ensures
            res@ == tag_after(
                name_len as nat,
                content@,
                attribute_views(attrs@),
                key_view(attr_name),
                rule@,
                src_file@,
            ),
    {
        let ghost all = attribute_views(attrs@);
        let ghost key = key_view(attr_name);
        let ghost name = content@.take(name_len as int);
        let mut rebuilt = copy_range(content, 0, name_len);
        assert(content@.subrange(0, name_len as int) =~= name);
        let mut lines: Vec<String> = Vec::new();
        let mut i: usize = 0;
        assert(all.take(0) =~= Seq::<Option<AttributeModel>>::empty());
        assert(texts(lines@) =~= Seq::<Seq<char>>::empty());
        while i < attrs.len()
            invariant
                i <= attrs.len(),
                all == attribute_views(attrs@),
                key == key_view(attr_name),
                rebuilt@ == content_after(name, all.take(i as int), key, rule@),
                texts(lines@) == lines_after(all.take(i as int), key, rule@, src_file@),
            decreases attrs.len() - i,
        {
            assert(all.take(i + 1).drop_last() =~= all.take(i as int));
            assert(all.take(i + 1).last() == all[i as int]);
            if let Some(attr) = &attrs[i] {
                let ghost before = rebuilt@;
                rebuilt.push(SPACE);
                append_bytes(&mut rebuilt, attr.key.as_slice());
                rebuilt.push(EQUALS);
                rebuilt.push(QUOTE);
                let selected = match attr_name {
                    Some(k) => bytes_eq(k, attr.key.as_slice()),
                    None => true,
                };
                let mut hit = false;
                if selected {
                    if let Some(key_text) = utf8_text(attr.key.as_slice()) {
                        if let Some(value) = utf8_text(attr.value.as_slice()) {
                            proof {
                                encode_utf8_decode_utf8(key_text@);
                                encode_utf8_decode_utf8(value@);
                            }
                            if rule.hits(value) {
                                hit = true;
                                let mut line = String::from_str(src_file);
                                line.append(": ");
                                line.append(key_text);
                                line.append("=");
                                line.append(value);
                                let ghost listed = texts(lines@);
                                lines.push(line);
                                assert(texts(lines@) =~= listed.push(line@));
                                let new_value = rule.result(value);
                                append_bytes(&mut rebuilt, new_value.as_str().as_bytes());
                            }
                        }
                    }
                }
                assert(hit == attr_hit(attr@, key, rule@));
                if !hit {
                    append_bytes(&mut rebuilt, attr.value.as_slice());
                }
                rebuilt.push(QUOTE);
                assert(rebuilt@ =~= before + seq![SPACE] + attr@.key + seq![EQUALS, QUOTE]
                    + attr_after(attr@, key, rule@).value + seq![QUOTE]);
            }
            i += 1;
        }
        assert(all.take(attrs.len() as int) =~= all);
        if lines.len() > 0 {
            TagUpdate { content: rebuilt, changed: true, lines }
        } else {
            TagUpdate { content: copy_bytes(content), changed: false, lines }
        }
    }

    /// Rewrites by `rule` the attributes of the tag with content `content`,
    /// whose name is `name_len` bytes long. A tag whose content is not text
    /// has no attributes that can be read, and stays as it is; a pass over a
    /// part meets no such tag, since the part is given up where it is read.
    pub fn update_attributes(
        name_len: usize,
        content: &[u8],
        attr_name: Option<&[u8]>,
        rule: &Rule,
        src_file: &str,
    ) -> (res: TagUpdate)
        ensures
            res@ == tag_update(name_len as nat, content@, key_view(attr_name), rule@, src_file@),
    {
        if name_len <= content.len() {
            if let Some(text) = utf8_text(content) {
                proof {
                    encode_utf8_decode_utf8(text@);
                }
                let attrs = tag_attributes(text, name_len);
                return Self::rewrite_attributes(
                    name_len,
                    content,
                    &attrs,
                    attr_name,
                    rule,
                    src_file,
                );
            }
        }
        let lines: Vec<String> = Vec::new();
        assert(texts(lines@) =~= Seq::<Seq<char>>::empty());
        TagUpdate { content: copy_bytes(content), changed: false, lines }
    }

    /// Rewrites by `rule` every attribute of the tag.
    pub fn update_any_attribute(
        name_len: usize,
        content: &[u8],
        rule: &Rule,
        src_file: &str,
    ) -> (res:
        TagUpdate)
        ensures
            res@ == tag_update(name_len as nat, content@, None, rule@, src_file@),
    {
        Self::update_attributes(name_len, content, None, rule, src_file)
    }
}

/// The local name of the element that gives a paragraph its style.
pub const PARAGRAPH_STYLE: &'static str = "pStyle";

/// The local name of the attribute that holds the value of an element.
pub const VALUE: &'static str = "val";

/// The name of the attribute that holds the target of a relationship.
pub const TARGET: &'static str = "Target";

/// The view of an optional attribute name.
pub open spec fn name_key(attr_name: Option<&str>) -> Option<Seq<u8>> {
    match attr_name {
        Some(name) => Some(encode_utf8(name@)),
        None => None,
    }
}

/// What a pass over a part gives.
pub struct Rewrite {
    /// The part as it was written out.
    pub output: Vec<u8>,
    /// Whether what was written out is to take the place of the part.
    pub changed: bool,
    /// One line for each attribute that was rewritten.
    pub lines: Vec<String>,
}

/// The mathematical value of a [`Rewrite`].
pub struct RewriteModel {
    pub output: Seq<u8>,
    pub changed: bool,
    pub lines: Seq<Seq<char>>,
}

impl View for Rewrite {
    type V = RewriteModel;

    open spec fn view(&self) -> RewriteModel {
        RewriteModel { output: self.output@, changed: self.changed, lines: texts(self.lines@) }
    }
}

impl RewriteModel {
    /// The pass before the first event.
    pub open spec fn start() -> RewriteModel {
        RewriteModel { output: Seq::empty(), changed: false, lines: Seq::empty() }
    }

    /// An event has been written out as it was read.
    pub open spec fn kept(self, event: EventModel) -> RewriteModel {
        RewriteModel { output: self.output + event.markup(), ..self }
    }

    /// A tag has been written out with the content that a rule made of it.
    pub open spec fn updated(self, event: EventModel, update: TagUpdateModel) -> RewriteModel {
        RewriteModel {
            output: self.output + event_with(event, update.content).markup(),
            changed: self.changed || update.changed,
            lines: self.lines + update.lines,
        }
    }
}

/// The tag `event` with its content replaced by `content`.
pub open spec fn event_with(event: EventModel, content: Seq<u8>) -> EventModel {
    match event {
        EventModel::Start(n, _) => EventModel::Start(n, content),
        EventModel::Empty(n, _) => EventModel::Empty(n, content),
        _ => event,
    }
}

/// What the pass that rewrites by `rule` the attributes of every tag gives
/// on `events`. Where `key` is given, only the attributes with that key are
/// looked at.
pub open spec fn attribute_pass(
    events: Seq<EventModel>,
    key: Option<Seq<u8>>,
    rule: RuleModel,
    src_file: Seq<char>,
) -> RewriteModel
    decreases events.len(),
{
    if events.len() == 0 {
        RewriteModel::start()
    } else {
        let before = attribute_pass(events.drop_last(), key, rule, src_file);
        match events.last() {
            EventModel::Start(n, c) | EventModel::Empty(n, c) => before.updated(
                events.last(),
                tag_update(n, c, key, rule, src_file),
            ),
            _ => before.kept(events.last()),
        }
    }
}

/// The key of the attribute `attr_name` with the prefix of the tag `name`.
pub open spec fn prefixed_key(name: Seq<u8>, attr_name: Seq<u8>) -> Option<Seq<u8>> {
    match name_prefix(name) {
        Some(prefix) => Some(prefix + seq![COLON] + attr_name),
        None => None,
    }
}

/// What becomes of a tag with name `name` whose attribute `attr_name`, under
/// the prefix of the tag itself, is to change from `search` to `replace`. A
/// tag without a prefix stays as it is.
pub open spec fn attribute_update(
    name_len: nat,
    content: Seq<u8>,
    name: Seq<u8>,
    attr_name: Seq<u8>,
    search: Seq<char>,
    replace: Seq<char>,
    src_file: Seq<char>,
) -> TagUpdateModel {
    match prefixed_key(name, attr_name) {
        Some(key) => tag_update(
            name_len,
            content,
            Some(key),
            RuleModel::Exact(search, replace),
            src_file,
        ),
        None => TagUpdateModel { content, changed: false, lines: Seq::empty() },
    }
}

/// The state of the pass that renames a style.
pub struct StylePass {
    pub root_seen: bool,
    pub aliases: Seq<Seq<u8>>,
    pub rewrite: RewriteModel,
}

/// What becomes of a tag in the pass that renames the style `style` to `replace`.
pub open spec fn style_tag(
    pass: StylePass,
    event: EventModel,
    name_len: nat,
    content: Seq<u8>,
    style: Seq<char>,
    replace: Seq<char>,
    src_file: Seq<char>,
) -> StylePass {
    if tag_matches(event.name(), pass.aliases, encode_utf8(PARAGRAPH_STYLE@)) {
        StylePass {
            rewrite: pass.rewrite.updated(
                event,
                attribute_update(
                    name_len,
                    content,
                    event.name(),
                    encode_utf8(VALUE@),
                    style,
                    replace,
                    src_file,
                ),
            ),
            ..pass
        }
    } else {
        StylePass { rewrite: pass.rewrite.kept(event), ..pass }
    }
}

/// The pass that renames the style `style` to `replace`, on `events`.
pub open spec fn style_pass(
    events: Seq<EventModel>,
    style: Seq<char>,
    replace: Seq<char>,
    src_file: Seq<char>,
) -> StylePass
    decreases events.len(),
{
    if events.len() == 0 {
        StylePass {
            root_seen: false,
            aliases: seq![encode_utf8(WORDDOC_NS@)],
            rewrite: RewriteModel::start(),
        }
    } else {
        let before = style_pass(events.drop_last(), style, replace, src_file);
        match events.last() {
            EventModel::Start(n, c) => {
                let rooted = if before.root_seen {
                    before
                } else {
                    StylePass {
                        root_seen: true,
                        aliases: before.aliases + declared_aliases(
                            root_attributes(n, c),
                            before.aliases[0],
                        ),
                        ..before
                    }
                };
                style_tag(rooted, events.last(), n, c, style, replace, src_file)
            },
            EventModel::Empty(n, c) => style_tag(
                before,
                events.last(),
                n,
                c,
                style,
                replace,
                src_file,
            ),
            _ => StylePass { rewrite: before.rewrite.kept(events.last()), ..before },
        }
    }
}

/// A tag none of whose attributes is rewritten is written out as it was read.
pub proof fn lemma_tag_kept(
    name_len: nat,
    content: Seq<u8>,
    key: Option<Seq<u8>>,
    rule: RuleModel,
    src_file: Seq<char>,
)
    ensures
        !tag_update(name_len, content, key, rule, src_file).changed ==> tag_update(
            name_len,
            content,
            key,
            rule,
            src_file,
        ).content == content && tag_update(name_len, content, key, rule, src_file).lines.len()
            == 0,
        tag_update(name_len, content, key, rule, src_file).changed ==> tag_update(
            name_len,
            content,
            key,
            rule,
            src_file,
        ).lines.len() > 0,
{
}

/// A pass that rewrites no attribute writes the part out as it was read, and
/// does not ask for it to be written; a pass that rewrites one reports it.
pub proof fn lemma_attribute_pass_kept(
    events: Seq<EventModel>,
    key: Option<Seq<u8>>,
    rule: RuleModel,
    src_file: Seq<char>,
)
    ensures
        !attribute_pass(events, key, rule, src_file).changed ==> attribute_pass(
            events,
            key,
            rule,
            src_file,
        ).output == markup_of(events) && attribute_pass(events, key, rule, src_file).lines.len()
            == 0,
        attribute_pass(events, key, rule, src_file).changed ==> attribute_pass(
            events,
            key,
            rule,
            src_file,
        ).lines.len() > 0,
    decreases events.len(),
{
    if events.len() > 0 {
        lemma_attribute_pass_kept(events.drop_last(), key, rule, src_file);
        match events.last() {
            EventModel::Start(n, c) | EventModel::Empty(n, c) => {
                lemma_tag_kept(n, c, key, rule, src_file);
            },
            _ => {},
        }
    }
}

/// A pass that renames no style writes the part out as it was read, and
/// does not ask for it to be written.
pub proof fn lemma_style_pass_kept(
    events: Seq<EventModel>,
    style: Seq<char>,
    replace: Seq<char>,
    src_file: Seq<char>,
)
    ensures
        !style_pass(events, style, replace, src_file).rewrite.changed ==> style_pass(
            events,
            style,
            replace,
            src_file,
        ).rewrite.output == markup_of(events),
    decreases events.len(),
{
    if events.len() > 0 {
        lemma_style_pass_kept(events.drop_last(), style, replace, src_file);
        match events.last() {
            EventModel::Start(n, c) | EventModel::Empty(n, c) => {
                match prefixed_key(events.last().name(), encode_utf8(VALUE@)) {
                    Some(key) => {
                        lemma_tag_kept(n, c, Some(key), RuleModel::Exact(style, replace), src_file);
                    },
                    None => {},
                }
            },
            _ => {},
        }
    }
}

/// Where a pass looks at the attributes with one key only, every attribute
/// with another key stays as it is, whatever its value.
pub proof fn lemma_other_attributes_kept(attr: AttributeModel, key: Seq<u8>, rule: RuleModel)
    requires
        attr.key != key,
    ensures
        !attr_hit(attr, Some(key), rule),
        attr_after(attr, Some(key), rule) == attr,
{
}

/// A pass that looks at the attributes with one key only changes a tag
/// only where the tag has an attribute with that key that the rule
/// rewrites; it reports as many attributes as it rewrites.
pub proof fn lemma_only_key_counts(
    attrs: Seq<Option<AttributeModel>>,
    key: Seq<u8>,
    rule: RuleModel,
    src_file: Seq<char>,
)
    requires
        forall|i: int|
            0 <= i < attrs.len() ==> ((#[trigger] attrs[i]) matches Some(a) ==> a.key != key),
    ensures
        lines_after(attrs, Some(key), rule, src_file).len() == 0,
    decreases attrs.len(),
{
    if attrs.len() > 0 {
        let shorter = attrs.drop_last();
        assert forall|i: int| 0 <= i < shorter.len() implies ((#[trigger] shorter[i]) matches Some(
            a,
        ) ==> a.key != key) by {
            assert(shorter[i] == attrs[i]);
        }
        lemma_only_key_counts(shorter, key, rule, src_file);
        assert(attrs[attrs.len() - 1] == attrs.last());
    }
}

/// Renaming a style changes the value of an attribute only where the
/// attribute has the key asked for and its value is the identifier of the
/// style; the value is then the identifier of the other style.
pub proof fn lemma_exact_rule(attr: AttributeModel, key: Seq<u8>, from: Seq<char>, to: Seq<char>)
    ensures
        attr_after(attr, Some(key), RuleModel::Exact(from, to)).key == attr.key,
        attr_after(attr, Some(key), RuleModel::Exact(from, to)).value != attr.value ==> attr.key
            == key && valid_utf8(attr.value) && decode_utf8(attr.value) == from && attr_after(
            attr,
            Some(key),
            RuleModel::Exact(from, to),
        ).value == encode_utf8(to),
        attr.key == key && valid_utf8(attr.key) && attr.value == encode_utf8(from) ==> attr_after(
            attr,
            Some(key),
            RuleModel::Exact(from, to),
        ).value == encode_utf8(to),
{
    vstd::utf8::encode_utf8_valid_utf8(from);
    encode_utf8_decode_utf8(from);
}

/// Writes out a tag with the content that a rule made of it.
fn write_updated(rewrite: &mut Rewrite, event: &XmlEvent, update: TagUpdate)
    requires
        event is Start || event is Empty,
    ensures
        final(rewrite)@ == old(rewrite)@.updated(event@, update@),
{
    let ghost listed = texts(rewrite.lines@);
    let TagUpdate { content, changed, lines } = update;
    let mut lines = lines;
    let new_event = match event {
        XmlEvent::Start(n, _) => XmlEvent::Start(*n, content),
        XmlEvent::Empty(n, _) => XmlEvent::Empty(*n, content),
        _ => XmlEvent::Eof,
    };
    assert(new_event@ == event_with(event@, update@.content));
    write_event(&mut rewrite.output, &new_event);
    rewrite.changed = rewrite.changed || changed;
    rewrite.lines.append(&mut lines);
    assert(texts(rewrite.lines@) =~= listed + update@.lines);
}

impl XMLUtil {
    /// Replaces by `replace` every match of `regex` in the values of the
    /// attributes of the part `xml`: of those with the name `attr_name`,
    /// where one is given, and of all of them where not. The part counts as
    /// changed where any value matched.
    pub fn snr_change_attribute(
        xml: &[u8],
        attr_name: Option<&str>,
        regex: &Matcher,
        replace: &str,
        src_file: &str,
    ) -> (res: Result<Rewrite, DocxError>)
        ensures
            match res {
                Ok(rewrite) => part_fault(xml@) is None && rewrite@ == attribute_pass(
                    part_events(xml@),
                    name_key(attr_name),
                    RuleModel::Pattern(regex@, replace@),
                    src_file@,
                ),
                Err(e) => exists|offset: u64|
                    e == (DocxError::MalformedMarkup { offset }) && part_fault(xml@) == Some(
                        offset as nat,
                    ),
            },
    {
        let events = match read_events(xml) {
            Ok(events) => events,
            Err(e) => {
                return Err(e);
            },
        };
        let rule = Rule::Pattern(regex, replace);
        let ghost all = event_views(events@);
        let ghost key = name_key(attr_name);
        let mut rewrite = Rewrite { output: Vec::new(), changed: false, lines: Vec::new() };
        assert(texts(rewrite.lines@) =~= Seq::<Seq<char>>::empty());
        assert(all.take(0) =~= Seq::<EventModel>::empty());
        let mut i: usize = 0;
        while i < events.len()
            invariant
                i <= events.len(),
                all == event_views(events@),
                key == name_key(attr_name),
                rule@ == RuleModel::Pattern(regex@, replace@),
                rewrite@ == attribute_pass(all.take(i as int), key, rule@, src_file@),
            decreases events.len() - i,
        {
            assert(all.take(i + 1).drop_last() =~= all.take(i as int));
            assert(all.take(i + 1).last() == events@[i as int]@);
            let event = &events[i];
            match event {
                XmlEvent::Start(n, c) | XmlEvent::Empty(n, c) => {
                    let update = match attr_name {
                        Some(name) => Self::update_attributes(
                            *n,
                            c.as_slice(),
                            Some(name.as_bytes()),
                            &rule,
                            src_file,
                        ),
                        None => Self::update_any_attribute(*n, c.as_slice(), &rule, src_file),
                    };
                    write_updated(&mut rewrite, event, update);
                },
                _ => {
                    write_event(&mut rewrite.output, event);
                },
            }
            i += 1;
        }
        assert(all.take(events.len() as int) =~= all);
        Ok(rewrite)
    }

    /// Changes the attribute `attr_name`, under the prefix of the tag
    /// itself, from the value `search` to the value `replace`.
    pub fn update_attribute(
        event: &XmlEvent,
        attr_name: &str,
        search: &str,
        replace: &str,
        src_file: &str,
    ) -> (res: TagUpdate)
        requires
            event matches XmlEvent::Start(_, _) || event matches XmlEvent::Empty(_, _),
        ensures
            match event@ {
                EventModel::Start(n, c) | EventModel::Empty(n, c) => res@ == attribute_update(
                    n,
                    c,
                    event@.name(),
                    encode_utf8(attr_name@),
                    search@,
                    replace@,
                    src_file@,
                ),
                _ => true,
            },
    {
        let name = event.name();
        match event {
            XmlEvent::Start(n, c) | XmlEvent::Empty(n, c) => {
                match prefix_of(name.as_slice()) {
                    Some(prefix) => {
                        let mut key = prefix;
                        key.push(COLON);
                        append_bytes(&mut key, attr_name.as_bytes());
                        assert(Some(key@) == prefixed_key(event@.name(), encode_utf8(attr_name@)));
                        let rule = Rule::Exact(search, replace);
                        Self::update_attributes(
                            *n,
                            c.as_slice(),
                            Some(key.as_slice()),
                            &rule,
                            src_file,
                        )
                    },
                    None => {
                        let lines: Vec<String> = Vec::new();
                        assert(texts(lines@) =~= Seq::<Seq<char>>::empty());
                        TagUpdate { content: copy_bytes(c.as_slice()), changed: false, lines }
                    },
                }
            },
            _ => {
                let lines: Vec<String> = Vec::new();
                TagUpdate { content: Vec::new(), changed: false, lines }
            },
        }
    }

    /// Gives every paragraph of the part `xml` that has the style with
    /// identifier `style` the style with identifier `replace`.
    pub fn style_change(xml: &[u8], src_file: &str, style: &str, replace: &str) -> (res: Result<
        Rewrite,
        DocxError,
    >)
        ensures
            match res {
                Ok(rewrite) => part_fault(xml@) is None && rewrite@ == style_pass(
                    part_events(xml@),
                    style@,
                    replace@,
                    src_file@,
                ).rewrite,
                Err(e) => exists|offset: u64|
                    e == (DocxError::MalformedMarkup { offset }) && part_fault(xml@) == Some(
                        offset as nat,
                    ),
            },
    {
        let events = match read_events(xml) {
            Ok(events) => events,
            Err(e) => {
                return Err(e);
            },
        };
        let ghost all = event_views(events@);
        let mut rewrite = Rewrite { output: Vec::new(), changed: false, lines: Vec::new() };
        let mut nslist = seed_aliases();
        let mut first_element = true;
        assert(views(nslist@).len() == nslist.len());
        assert(texts(rewrite.lines@) =~= Seq::<Seq<char>>::empty());
        assert(all.take(0) =~= Seq::<EventModel>::empty());
        let mut i: usize = 0;
        while i < events.len()
            invariant
                i <= events.len(),
                all == event_views(events@),
                nslist.len() >= 1,
                first_element ==> nslist.len() == 1,
                style_pass(all.take(i as int), style@, replace@, src_file@) == (StylePass {
                    root_seen: !first_element,
                    aliases: views(nslist@),
                    rewrite: rewrite@,
                }),
            decreases events.len() - i,
        {
            assert(all.take(i + 1).drop_last() =~= all.take(i as int));
            assert(all.take(i + 1).last() == events@[i as int]@);
            let event = &events[i];
            match event {
                XmlEvent::Start(n, c) => {
                    if first_element {
                        first_element = false;
                        let attrs = read_root(*n, c.as_slice());
                        let ghost seeded = views(nslist@);
                        assert(seeded.len() == nslist.len());
                        Self::read_namespaces(&attrs, &mut nslist);
                        assert(views(nslist@).len() == nslist.len());
                        assert(views(nslist@).len() >= seeded.len());
                    }
                    let name = event.name();
                    if Self::match_tag(name.as_slice(), &nslist, PARAGRAPH_STYLE) {
                        let update = Self::update_attribute(event, VALUE, style, replace, src_file);
                        write_updated(&mut rewrite, event, update);
                    } else {
                        write_event(&mut rewrite.output, event);
                    }
                },
                XmlEvent::Empty(n, c) => {
                    let name = event.name();
                    if Self::match_tag(name.as_slice(), &nslist, PARAGRAPH_STYLE) {
                        let update = Self::update_attribute(event, VALUE, style, replace, src_file);
                        write_updated(&mut rewrite, event, update);
                    } else {
                        write_event(&mut rewrite.output, event);
                    }
                },
                _ => {
                    write_event(&mut rewrite.output, event);
                },
            }
            i += 1;
        }
        assert(all.take(events.len() as int) =~= all);
        Ok(rewrite)
    }
}

} // verus!
