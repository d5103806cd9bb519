//! The text reconstruction engine.
//!
//! A part is read once, event by event. The engine follows the paragraphs and
//! runs of the part, puts the text of each paragraph together as a reader
//! sees it, and notes for every run the paragraph it belongs to and the
//! position at which its text starts there. Every event is written out
//! again as it was read, but for the text of a run that a plan replaces.

use crate::bytes::{append_bytes, views};
use crate::error::DocxError;
use crate::names::{declared_aliases, seed_aliases, tag_matches, WORDDOC_NS};
use crate::plan::{planned_texts, EntryModel, ReplacementPlan};
use crate::text::texts;
use crate::xml::{
    attribute_views, escape, escaped, next_event, open_reader, reader_pending, reader_position,
    tag_attributes, unescape, utf8_text, write_event, xml_attributes, xml_readings, xml_unescaped,
    complete_run, Attribute, AttributeModel, EventModel, Reading, XmlEvent,
};
use crate::xml_util::XMLUtil;
use vstd::prelude::*;
use vstd::string::{StringExecFns, StrSliceExecFns};
use vstd::utf8::{decode_utf8, encode_utf8, encode_utf8_decode_utf8, valid_utf8};

verus! {

/// The local name of a paragraph element.
pub const PARAGRAPH: &'static str = "p";

/// The local name of the element that holds the text of a run.
pub const RUN_TEXT: &'static str = "t";

/// The local name of a line-break element.
pub const LINE_BREAK: &'static str = "br";

/// What a line break becomes in the text of a paragraph.
pub const LINE_SEPARATOR: &'static str = "\n";

/// Where the engine stands in the part.
#[derive(Clone, Copy, Debug, PartialEq, Eq, Structural)]
pub enum Mode {
    Outside,
    InParagraph,
    InRun,
}

/// The paragraph index of a run whose text stands in no paragraph.
pub const NO_PARAGRAPH: usize = usize::MAX;

/// Where the text of a run stands: the index of its paragraph, the position
/// in the paragraph's text at which it starts, and its length, both counted
/// in characters. A run whose text was dropped, because its paragraph was
/// started anew or closed without text, has `NO_PARAGRAPH` as its paragraph.
#[derive(Clone, Copy, Debug, PartialEq, Eq, Structural)]
pub struct RunCoord {
    pub para: usize,
    pub offset: usize,
    pub len: usize,
}

impl RunCoord {
    /// The position at which the run's text ends.
    pub open spec fn end(self) -> int {
        self.offset + self.len
    }
}

/// The coordinates with the runs from number `from` on marked as standing in no paragraph.
pub open spec fn dropped(coords: Seq<RunCoord>, from: nat) -> Seq<RunCoord> {
    Seq::new(
        coords.len(),
        |i: int|
            if i >= from {
                RunCoord { para: NO_PARAGRAPH, ..coords[i] }
            } else {
                coords[i]
            },
    )
}

/// The mathematical value of the engine's state.
pub struct ScanModel {
    pub mode: Mode,
    /// Whether the first opening tag has been read.
    pub root_seen: bool,
    /// The aliases of the namespace: the namespace itself, then the prefixes bound to it.
    pub aliases: Seq<Seq<u8>>,
    /// The text of the paragraph that is being read.
    pub line: Seq<char>,
    /// The texts of the paragraphs that have been closed, but for those without text.
    pub paras: Seq<Seq<char>>,
    /// The coordinates of the runs read so far; the number of a run is its index.
    pub coords: Seq<RunCoord>,
    /// The number of the first run of the paragraph that is being read.
    pub line_first: nat,
    /// The bytes written out so far.
    pub output: Seq<u8>,
    /// One line for each run whose text was replaced.
    pub log: Seq<Seq<char>>,
    /// The byte offset at which the part was given up, if it was.
    pub failed: Option<nat>,
}

/// The attributes of an opening tag, or `None` where its content is not text.
pub open spec fn tag_attribute_list(name_len: nat, content: Seq<u8>) -> Option<
    Seq<Option<AttributeModel>>,
> {
    if valid_utf8(content) && name_len <= content.len() {
        Some(xml_attributes(decode_utf8(content), name_len))
    } else {
        None
    }
}

/// The attributes of an opening tag: none where its content is not text.
pub open spec fn root_attributes(name_len: nat, content: Seq<u8>) -> Seq<Option<AttributeModel>> {
    match tag_attribute_list(name_len, content) {
        Some(attrs) => attrs,
        None => Seq::empty(),
    }
}

/// The text that the raw content of a text event stands for, or `None` where
/// it is not text or holds a reference that cannot be resolved.
pub open spec fn plain_text(content: Seq<u8>) -> Option<Seq<char>> {
    if valid_utf8(content) {
        xml_unescaped(decode_utf8(content))
    } else {
        None
    }
}

/// The line that reports the replacement of the text `old` of a run by `new`.
pub open spec fn replaced_line(src_file: Seq<char>, old: Seq<char>, new: Seq<char>) -> Seq<char> {
    src_file + ": "@ + old + "\n-> "@ + new
}

impl ScanModel {
    /// The state before the first event.
    pub open spec fn start() -> ScanModel {
        ScanModel {
            mode: Mode::Outside,
            root_seen: false,
            aliases: seq![encode_utf8(WORDDOC_NS@)],
            line: Seq::empty(),
            paras: Seq::empty(),
            coords: Seq::empty(),
            line_first: 0,
            output: Seq::empty(),
            log: Seq::empty(),
            failed: None,
        }
    }

    /// The invariant of the state: the list of aliases starts with the
    /// namespace, and holds nothing else before the first opening tag.
    pub open spec fn wf(self) -> bool {
        &&& self.aliases.len() >= 1
        &&& !self.root_seen ==> self.aliases.len() == 1
        &&& self.line_first <= self.coords.len()
    }

    /// The paragraph that is being read is given up: its text is dropped,
    /// and its runs stand in no paragraph.
    pub open spec fn drop_line(self) -> ScanModel {
        ScanModel {
            line: Seq::empty(),
            coords: dropped(self.coords, self.line_first),
            line_first: self.coords.len(),
            ..self
        }
    }

    /// The part has been given up at byte offset `offset`.
    pub open spec fn fail(self, offset: nat) -> ScanModel {
        ScanModel { failed: Some(offset), ..self }
    }

    /// The bytes `bytes` have been written out.
    pub open spec fn emit(self, bytes: Seq<u8>) -> ScanModel {
        ScanModel { output: self.output + bytes, ..self }
    }

    /// The first opening tag has been read: its prefixes for the namespace become aliases.
    pub open spec fn with_root(self, attrs: Seq<Option<AttributeModel>>) -> ScanModel {
        ScanModel {
            root_seen: true,
            aliases: self.aliases + declared_aliases(attrs, self.aliases[0]),
            ..self
        }
    }

    /// An opening tag with name `name` has been read. A paragraph starts with
    /// a new text, and what was read of a paragraph before is dropped; inside
    /// a paragraph a run's text element opens the run; a line break adds a
    /// line separator to the text.
    pub open spec fn open_tag(self, name: Seq<u8>) -> ScanModel {
        if tag_matches(name, self.aliases, encode_utf8(PARAGRAPH@)) {
            ScanModel { mode: Mode::InParagraph, ..self.drop_line() }
        } else if self.mode != Mode::Outside && tag_matches(
            name,
            self.aliases,
            encode_utf8(RUN_TEXT@),
        ) {
            ScanModel { mode: Mode::InRun, ..self }
        } else if tag_matches(name, self.aliases, encode_utf8(LINE_BREAK@)) {
            ScanModel { line: self.line + LINE_SEPARATOR@, ..self }
        } else {
            self
        }
    }

    /// A self-closing tag with name `name` has been read.
    pub open spec fn empty_tag(self, name: Seq<u8>) -> ScanModel {
        if self.mode != Mode::Outside && tag_matches(name, self.aliases, encode_utf8(RUN_TEXT@)) {
            ScanModel { mode: Mode::InRun, ..self }
        } else if tag_matches(name, self.aliases, encode_utf8(LINE_BREAK@)) {
            ScanModel { line: self.line + LINE_SEPARATOR@, ..self }
        } else {
            self
        }
    }

    /// A closing tag with name `name` has been read. The end of a paragraph
    /// adds its text to the list; a paragraph without text is dropped. The
    /// end of a run's text element leaves the run.
    pub open spec fn close_tag(self, name: Seq<u8>) -> ScanModel {
        if tag_matches(name, self.aliases, encode_utf8(PARAGRAPH@)) {
            if self.line.len() > 0 {
                ScanModel {
                    mode: Mode::Outside,
                    line: Seq::empty(),
                    paras: self.paras.push(self.line),
                    line_first: self.coords.len(),
                    ..self
                }
            } else {
                ScanModel { mode: Mode::Outside, ..self.drop_line() }
            }
        } else if self.mode != Mode::Outside && tag_matches(
            name,
            self.aliases,
            encode_utf8(RUN_TEXT@),
        ) {
            ScanModel { mode: Mode::InParagraph, ..self }
        } else {
            self
        }
    }

    /// The coordinates of a run with the text `text` that is added to the
    /// paragraph that is being read.
    pub open spec fn coord_for(self, text: Seq<char>) -> RunCoord {
        RunCoord {
            para: self.paras.len() as usize,
            offset: self.line.len() as usize,
            len: text.len() as usize,
        }
    }

    /// The text event with raw content `raw` has been read inside a run, and
    /// stands for the text `val`. A text that is not empty makes a run: its
    /// coordinates are noted, and it is written out as it was read, or as
    /// the plan has it.
    pub open spec fn run_text(
        self,
        raw: Seq<u8>,
        val: Seq<char>,
        plan: Map<usize, Seq<char>>,
        src_file: Seq<char>,
    ) -> ScanModel {
        if val.len() == 0 {
            self.emit(raw)
        } else {
            let id = self.coords.len() as usize;
            if plan.contains_key(id) {
                ScanModel {
                    coords: self.coords.push(self.coord_for(plan[id])),
                    line: self.line + plan[id],
                    output: self.output + encode_utf8(escaped(plan[id])),
                    log: self.log.push(replaced_line(src_file, val, plan[id])),
                    ..self
                }
            } else {
                ScanModel {
                    coords: self.coords.push(self.coord_for(val)),
                    line: self.line + val,
                    output: self.output + raw,
                    ..self
                }
            }
        }
    }

    /// One event has been read. A part with a tag whose content is not text
    /// is given up there.
    pub open spec fn step_event(
        self,
        event: EventModel,
        offset: nat,
        plan: Map<usize, Seq<char>>,
        src_file: Seq<char>,
    ) -> ScanModel {
        if event.readable() {
            self.step_readable(event, offset, plan, src_file)
        } else {
            self.fail(offset)
        }
    }

    /// One event that can be read has been read.
    pub open spec fn step_readable(
        self,
        event: EventModel,
        offset: nat,
        plan: Map<usize, Seq<char>>,
        src_file: Seq<char>,
    ) -> ScanModel {
        match event {
            EventModel::Start(n, c) => {
                if self.root_seen {
                    self.open_tag(event.name()).emit(event.markup())
                } else {
                    self.with_root(root_attributes(n, c)).open_tag(event.name()).emit(
                        event.markup(),
                    )
                }
            },
            EventModel::Empty(_, _) => self.empty_tag(event.name()).emit(event.markup()),
            EventModel::End(_) => self.close_tag(event.name()).emit(event.markup()),
            EventModel::Text(c) => {
                if self.mode == Mode::InRun {
                    match plain_text(c) {
                        Some(val) => self.run_text(c, val, plan, src_file),
                        None => self.fail(offset),
                    }
                } else {
                    self.emit(c)
                }
            },
            EventModel::Eof => self,
            _ => self.emit(event.markup()),
        }
    }

    /// One step of the reader has been taken. Nothing follows a failure.
    pub open spec fn step(
        self,
        reading: Reading,
        plan: Map<usize, Seq<char>>,
        src_file: Seq<char>,
    ) -> ScanModel {
        if self.failed is Some {
            self
        } else {
            match reading.event {
                Some(event) => self.step_event(event, reading.offset, plan, src_file),
                None => self.fail(reading.offset),
            }
        }
    }
}

/// The state after the steps `readings`, taken from the start.
pub open spec fn scan(
    readings: Seq<Reading>,
    plan: Map<usize, Seq<char>>,
    src_file: Seq<char>,
) -> ScanModel
    decreases readings.len(),
{
    if readings.len() == 0 {
        ScanModel::start()
    } else {
        scan(readings.drop_last(), plan, src_file).step(readings.last(), plan, src_file)
    }
}

/// What reading a part gives.
pub struct Reconstruction {
    /// The texts of the paragraphs, in their order.
    pub paras: Vec<String>,
    /// The coordinates of the runs; the number of a run is its index.
    pub coords: Vec<RunCoord>,
    /// The part as it was written out.
    pub output: Vec<u8>,
    /// One line for each run whose text was replaced.
    pub log: Vec<String>,
    /// Whether what was written out is to take the place of the part.
    pub changed: bool,
}

/// The mathematical value of a [`Reconstruction`].
pub struct ReconstructionModel {
    pub paras: Seq<Seq<char>>,
    pub coords: Seq<RunCoord>,
    pub output: Seq<u8>,
    pub log: Seq<Seq<char>>,
    pub changed: bool,
}

impl View for Reconstruction {
    type V = ReconstructionModel;

    open spec fn view(&self) -> ReconstructionModel {
        ReconstructionModel {
            paras: texts(self.paras@),
            coords: self.coords@,
            output: self.output@,
            log: texts(self.log@),
            changed: self.changed,
        }
    }
}

/// What reading the part `part` with the texts `plan` gives, where it does not fail.
pub open spec fn reconstruction(
    part: Seq<u8>,
    plan: Map<usize, Seq<char>>,
    src_file: Seq<char>,
) -> ReconstructionModel {
    let end = scan(xml_readings(part), plan, src_file);
    ReconstructionModel {
        paras: end.paras,
        coords: end.coords,
        output: end.output,
        log: end.log,
        changed: plan != Map::<usize, Seq<char>>::empty(),
    }
}

/// The state of the engine.
pub struct Scan {
    pub mode: Mode,
    pub root_seen: bool,
    pub aliases: Vec<Vec<u8>>,
    pub line: String,
    pub paras: Vec<String>,
    pub coords: Vec<RunCoord>,
    pub line_first: usize,
    pub output: Vec<u8>,
    pub log: Vec<String>,
}

impl View for Scan {
    type V = ScanModel;

    open spec fn view(&self) -> ScanModel {
        ScanModel {
            mode: self.mode,
            root_seen: self.root_seen,
            aliases: views(self.aliases@),
            line: self.line@,
            paras: texts(self.paras@),
            coords: self.coords@,
            line_first: self.line_first as nat,
            output: self.output@,
            log: texts(self.log@),
            failed: None,
        }
    }
}

/// Reads the attributes of an opening tag. A tag whose content is not text
/// has none that can be read; a part with such a tag is given up where the
/// tag is read, so that none reaches this place in a pass over a part.
pub fn read_root(name_len: usize, content: &[u8]) -> (res: Vec<Option<Attribute>>)
    ensures
        attribute_views(res@) == root_attributes(name_len as nat, content@),
{
    if name_len <= content.len() {
        if let Some(text) = utf8_text(content) {
            proof {
                encode_utf8_decode_utf8(text@);
            }
            return tag_attributes(text, name_len);
        }
    }
    let res: Vec<Option<Attribute>> = Vec::new();
    assert(attribute_views(res@) =~= Seq::<Option<AttributeModel>>::empty());
    res
}

impl Scan {
    /// The state before the first event.
    pub fn new() -> (res: Scan)
        ensures
            res@ == ScanModel::start(),
            res@.wf(),
    {
        let res = Scan {
            mode: Mode::Outside,
            root_seen: false,
            aliases: seed_aliases(),
            line: String::new(),
            paras: Vec::new(),
            coords: Vec::new(),
            line_first: 0,
            output: Vec::new(),
            log: Vec::new(),
        };
        assert(texts(res.paras@) =~= Seq::<Seq<char>>::empty());
        assert(texts(res.log@) =~= Seq::<Seq<char>>::empty());
        res
    }

    /// Takes the attributes of the first opening tag.
    pub fn take_root(&mut self, attrs: &Vec<Option<Attribute>>)
        requires
            old(self)@.wf(),
            !old(self).root_seen,
        ensures
            final(self)@ == old(self)@.with_root(attribute_views(attrs@)),
            final(self)@.wf(),
    {
        XMLUtil::read_namespaces(attrs, &mut self.aliases);
        self.root_seen = true;
    }

    /// Gives up the paragraph that is being read.
    pub fn drop_line(&mut self)
        requires
            old(self)@.wf(),
        ensures
            final(self)@ == old(self)@.drop_line(),
            final(self)@.wf(),
    {
        let mut i: usize = self.line_first;
        while i < self.coords.len()
            invariant
                self.line_first <= i <= self.coords.len(),
                self.coords.len() == old(self).coords.len(),
                self.line_first == old(self).line_first,
                self.mode == old(self).mode,
                self.root_seen == old(self).root_seen,
                self.aliases == old(self).aliases,
                self.line == old(self).line,
                self.paras == old(self).paras,
                self.output == old(self).output,
                self.log == old(self).log,
                forall|k: int|
                    0 <= k < self.coords.len() ==> #[trigger] self.coords@[k] == (if self.line_first
                        <= k < i {
                        RunCoord { para: NO_PARAGRAPH, ..old(self).coords@[k] }
                    } else {
                        old(self).coords@[k]
                    }),
            decreases self.coords.len() - i,
        {
            let coord = self.coords[i];
            self.coords.set(
                i,
                RunCoord { para: NO_PARAGRAPH, offset: coord.offset, len: coord.len },
            );
            i += 1;
        }
        self.line_first = self.coords.len();
        self.line = String::new();
        assert(self.coords@ =~= dropped(old(self).coords@, old(self).line_first as nat));
    }

    /// Takes an opening tag with name `name`.
    pub fn open_tag(&mut self, name: &[u8])
        requires
            old(self)@.wf(),
        ensures
            final(self)@ == old(self)@.open_tag(name@),
            final(self)@.wf(),
    {
        if XMLUtil::match_tag(name, &self.aliases, PARAGRAPH) {
            self.drop_line();
            self.mode = Mode::InParagraph;
        } else if self.mode != Mode::Outside && XMLUtil::match_tag(name, &self.aliases, RUN_TEXT) {
            self.mode = Mode::InRun;
        } else if XMLUtil::match_tag(name, &self.aliases, LINE_BREAK) {
            self.line.append(LINE_SEPARATOR);
        }
    }

    /// Takes a self-closing tag with name `name`.
    pub fn empty_tag(&mut self, name: &[u8])
        requires
            old(self)@.wf(),
        ensures
            final(self)@ == old(self)@.empty_tag(name@),
            final(self)@.wf(),
    {
        if self.mode != Mode::Outside && XMLUtil::match_tag(name, &self.aliases, RUN_TEXT) {
            self.mode = Mode::InRun;
        } else if XMLUtil::match_tag(name, &self.aliases, LINE_BREAK) {
            self.line.append(LINE_SEPARATOR);
        }
    }

    /// Takes a closing tag with name `name`.
    pub fn close_tag(&mut self, name: &[u8])
        requires
            old(self)@.wf(),
        ensures
            final(self)@ == old(self)@.close_tag(name@),
            final(self)@.wf(),
    {
        if XMLUtil::match_tag(name, &self.aliases, PARAGRAPH) {
            if !self.line.as_str().is_empty() {
                let ghost before = texts(self.paras@);
                let line = self.line.clone();
                self.paras.push(line);
                assert(texts(self.paras@) =~= before.push(line@));
                self.line = String::new();
                self.line_first = self.coords.len();
            } else {
                self.drop_line();
            }
            self.mode = Mode::Outside;
        } else if self.mode != Mode::Outside && XMLUtil::match_tag(name, &self.aliases, RUN_TEXT) {
            self.mode = Mode::InParagraph;
        }
    }

    /// Takes, inside a run, a text event with raw content `raw` that stands for the text `val`.
    pub fn run_text(&mut self, raw: &[u8], val: &str, plan: &ReplacementPlan, src_file: &str)
        requires
            old(self)@.wf(),
        ensures
            final(self)@ == old(self)@.run_text(raw@, val@, planned_texts(plan@), src_file@),
            final(self)@.wf(),
    {
        if val.is_empty() {
            append_bytes(&mut self.output, raw);
            return ;
        }
        let id = self.coords.len();
        let offset = self.line.as_str().unicode_len();
        assert(texts(self.paras@).len() == self.paras.len());
        match plan.text_of(id) {
            Some(new) => {
                let len = new.as_str().unicode_len();
                self.coords.push(RunCoord { para: self.paras.len(), offset, len });
                let mut line = String::from_str(src_file);
                line.append(": ");
                line.append(val);
                line.append("\n-> ");
                line.append(new.as_str());
                let ghost before = texts(self.log@);
                self.log.push(line);
                assert(texts(self.log@) =~= before.push(line@));
                self.line.append(new.as_str());
                let escaped_text = escape(new.as_str());
                append_bytes(&mut self.output, escaped_text.as_str().as_bytes());
            },
            None => {
                let len = val.unicode_len();
                self.coords.push(RunCoord { para: self.paras.len(), offset, len });
                self.line.append(val);
                append_bytes(&mut self.output, raw);
            },
        }
    }

    /// Takes one event, read up to byte offset `offset` of the part.
    pub fn step(
        &mut self,
        event: &XmlEvent,
        offset: u64,
        plan: &ReplacementPlan,
        src_file: &str,
    ) -> (res:
        Result<(), DocxError>)
        requires
            old(self)@.wf(),
        ensures
            ({
                let next = old(self)@.step_event(
                    event@,
                    offset as nat,
                    planned_texts(plan@),
                    src_file@,
                );
                match res {
                    Ok(_) => next.failed is None && final(self)@ == next && final(self)@.wf(),
                    Err(e) => next.failed == Some(offset as nat) && e == (DocxError::MalformedMarkup {
                        offset,
                    }),
                }
            }),
    {
        if !event.is_readable() {
            return Err(DocxError::MalformedMarkup { offset });
        }
        match event {
            XmlEvent::Start(n, c) => {
                if !self.root_seen {
                    let attrs = read_root(*n, c.as_slice());
                    self.take_root(&attrs);
                }
                let name = event.name();
                self.open_tag(name.as_slice());
                write_event(&mut self.output, event);
                Ok(())
            },
            XmlEvent::Empty(_, _) => {
                let name = event.name();
                self.empty_tag(name.as_slice());
                write_event(&mut self.output, event);
                Ok(())
            },
            XmlEvent::End(_) => {
                let name = event.name();
                self.close_tag(name.as_slice());
                write_event(&mut self.output, event);
                Ok(())
            },
            XmlEvent::Text(c) => {
                if self.mode == Mode::InRun {
                    match utf8_text(c.as_slice()) {
                        Some(content) => {
                            proof {
                                encode_utf8_decode_utf8(content@);
                            }
                            match unescape(content) {
                                Some(val) => {
                                    self.run_text(c.as_slice(), val.as_str(), plan, src_file);
                                    Ok(())
                                },
                                None => Err(DocxError::MalformedMarkup { offset }),
                            }
                        },
                        None => Err(DocxError::MalformedMarkup { offset }),
                    }
                } else {
                    write_event(&mut self.output, event);
                    Ok(())
                }
            },
            XmlEvent::Eof => Ok(()),
            _ => {
                write_event(&mut self.output, event);
                Ok(())
            },
        }
    }
}

/// Once a part has been given up, further steps change nothing.
pub proof fn lemma_failure_stays(
    readings: Seq<Reading>,
    k: int,
    plan: Map<usize, Seq<char>>,
    src_file: Seq<char>,
)
    requires
        0 <= k <= readings.len(),
        scan(readings.take(k), plan, src_file).failed is Some,
    ensures
        scan(readings, plan, src_file) == scan(readings.take(k), plan, src_file),
    decreases readings.len() - k,
{
    if k < readings.len() {
        assert(readings.take(k + 1).drop_last() =~= readings.take(k));
        lemma_failure_stays(readings, k + 1, plan, src_file);
    } else {
        assert(readings.take(k) =~= readings);
    }
}

/// One piece of the text of a paragraph.
pub enum Piece {
    /// The text of a run as it is written out: the number of the run, and the text.
    Run(usize, Seq<char>),
    /// The line separator that a line break adds.
    Break,
}

impl Piece {
    /// The text of the piece.
    pub open spec fn text(self) -> Seq<char> {
        match self {
            Piece::Run(_, text) => text,
            Piece::Break => LINE_SEPARATOR@,
        }
    }
}

/// The texts of `pieces` joined.
pub open spec fn joined(pieces: Seq<Piece>) -> Seq<char>
    decreases pieces.len(),
{
    if pieces.len() == 0 {
        Seq::empty()
    } else {
        joined(pieces.drop_last()) + pieces.last().text()
    }
}

/// The lengths of the texts of the runs among `pieces`, added up.
pub open spec fn runs_len(pieces: Seq<Piece>) -> nat
    decreases pieces.len(),
{
    if pieces.len() == 0 {
        0
    } else {
        runs_len(pieces.drop_last()) + match pieces.last() {
            Piece::Run(_, text) => text.len(),
            Piece::Break => 0,
        }
    }
}

/// The lengths of the line separators among `pieces`, added up.
pub open spec fn separators_len(pieces: Seq<Piece>) -> nat
    decreases pieces.len(),
{
    if pieces.len() == 0 {
        0
    } else {
        separators_len(pieces.drop_last()) + match pieces.last() {
            Piece::Run(_, _) => 0nat,
            Piece::Break => LINE_SEPARATOR@.len(),
        }
    }
}

/// The pieces that the paragraphs of a part are made of.
pub struct Ledger {
    /// The pieces of the paragraph that is being read.
    pub open: Seq<Piece>,
    /// The pieces of each paragraph that has been closed, but for those without text.
    pub closed: Seq<Seq<Piece>>,
}

impl Ledger {
    /// The piece `piece` has been added to the paragraph that is being read.
    pub open spec fn add(self, piece: Piece) -> Ledger {
        Ledger { open: self.open.push(piece), ..self }
    }

    /// An opening tag with name `name` has been read in the state `state`.
    pub open spec fn open_tag(self, state: ScanModel, name: Seq<u8>) -> Ledger {
        if tag_matches(name, state.aliases, encode_utf8(PARAGRAPH@)) {
            Ledger { open: Seq::empty(), ..self }
        } else {
            self.empty_tag(state, name)
        }
    }

    /// A self-closing tag with name `name` has been read in the state `state`.
    pub open spec fn empty_tag(self, state: ScanModel, name: Seq<u8>) -> Ledger {
        if state.mode != Mode::Outside && tag_matches(name, state.aliases, encode_utf8(RUN_TEXT@)) {
            self
        } else if tag_matches(name, state.aliases, encode_utf8(LINE_BREAK@)) {
            self.add(Piece::Break)
        } else {
            self
        }
    }

    /// A closing tag with name `name` has been read in the state `state`.
    pub open spec fn close_tag(self, state: ScanModel, name: Seq<u8>) -> Ledger {
        if tag_matches(name, state.aliases, encode_utf8(PARAGRAPH@)) {
            Ledger {
                open: Seq::empty(),
                closed: if joined(self.open).len() > 0 {
                    self.closed.push(self.open)
                } else {
                    self.closed
                },
            }
        } else {
            self
        }
    }

    /// A text with raw content `content` has been read in the state `state`.
    pub open spec fn text(
        self,
        state: ScanModel,
        content: Seq<u8>,
        plan: Map<usize, Seq<char>>,
    ) -> Ledger {
        if state.mode == Mode::InRun && plain_text(content) is Some && plain_text(content)->0.len()
            > 0 {
            let id = state.coords.len() as usize;
            self.add(
                Piece::Run(
                    id,
                    if plan.contains_key(id) {
                        plan[id]
                    } else {
                        plain_text(content)->0
                    },
                ),
            )
        } else {
            self
        }
    }

    /// What one step of the reader does to the pieces, taken in the state `state`.
    pub open spec fn step(
        self,
        state: ScanModel,
        reading: Reading,
        plan: Map<usize, Seq<char>>,
    ) -> Ledger {
        if state.failed is Some || !(reading.event matches Some(event) && event.readable()) {
            self
        } else {
            match reading.event {
                Some(EventModel::Start(n, c)) => {
                    let rooted = if state.root_seen {
                        state
                    } else {
                        state.with_root(root_attributes(n, c))
                    };
                    self.open_tag(rooted, reading.event->0.name())
                },
                Some(EventModel::Empty(_, _)) => self.empty_tag(state, reading.event->0.name()),
                Some(EventModel::End(_)) => self.close_tag(state, reading.event->0.name()),
                Some(EventModel::Text(c)) => self.text(state, c, plan),
                _ => self,
            }
        }
    }
}

/// The pieces that the paragraphs are made of after the steps `readings`.
pub open spec fn ledger(
    readings: Seq<Reading>,
    plan: Map<usize, Seq<char>>,
    src_file: Seq<char>,
) -> Ledger
    decreases readings.len(),
{
    if readings.len() == 0 {
        Ledger { open: Seq::empty(), closed: Seq::empty() }
    } else {
        ledger(readings.drop_last(), plan, src_file).step(
            scan(readings.drop_last(), plan, src_file),
            readings.last(),
            plan,
        )
    }
}

/// The text of a list of pieces is as long as the texts of its runs and its
/// line separators together.
pub proof fn lemma_joined_len(pieces: Seq<Piece>)
    ensures
        joined(pieces).len() == runs_len(pieces) + separators_len(pieces),
    decreases pieces.len(),
{
    if pieces.len() > 0 {
        lemma_joined_len(pieces.drop_last());
    }
}

/// Whether each run among `pieces` stands in place in paragraph `para`: the
/// coordinates give the paragraph for it, and as its offset the length of
/// the pieces before it.
pub open spec fn pieces_in_place(coords: Seq<RunCoord>, pieces: Seq<Piece>, para: int) -> bool {
    forall|k: int|
        0 <= k < pieces.len() ==> ((#[trigger] pieces[k]) matches Piece::Run(id, text)
            ==> id < coords.len() && coords[id as int].para == para && coords[id as int].offset
            == joined(pieces.take(k)).len() as usize && coords[id as int].len == text.len()
            as usize)
}

/// Whether the number of each run among `pieces` is at least `from` and less than `to`.
pub open spec fn runs_between(pieces: Seq<Piece>, from: int, to: int) -> bool {
    forall|k: int|
        0 <= k < pieces.len() ==> ((#[trigger] pieces[k]) matches Piece::Run(id, text) ==> from
            <= id < to)
}

/// Whether the coordinates of a state are placed: those of the runs of the
/// paragraph that is being read lie within its text so far, and those of
/// every other run lie within the text of its paragraph, if it has one.
pub open spec fn coords_placed(state: ScanModel) -> bool {
    forall|id: int|
        0 <= id < state.coords.len() ==> if id >= state.line_first {
            (#[trigger] state.coords[id]).para == state.paras.len() && state.coords[id].end()
                <= state.line.len()
        } else {
            state.coords[id].para == NO_PARAGRAPH || (state.coords[id].para < state.paras.len()
                && state.coords[id].end() <= state.paras[state.coords[id].para as int].len())
        }
}

/// Whether the pieces tally with the state: the text of each paragraph is
/// made of its pieces, each run among them stands in place, and the
/// coordinates are placed.
pub open spec fn tallies(state: ScanModel, pieces: Ledger) -> bool {
    &&& state.line == joined(pieces.open)
    &&& pieces.closed.len() == state.paras.len()
    &&& state.line_first <= state.coords.len()
    &&& pieces_in_place(state.coords, pieces.open, state.paras.len() as int)
    &&& runs_between(pieces.open, state.line_first as int, state.coords.len() as int)
    &&& coords_placed(state)
    &&& forall|i: int|
        0 <= i < state.paras.len() ==> {
            &&& state.paras[i] == joined(#[trigger] pieces.closed[i])
            &&& pieces_in_place(state.coords, pieces.closed[i], i)
            &&& runs_between(pieces.closed[i], 0, state.line_first as int)
        }
}

/// Coordinates that stay as they are below `bound` leave in place the runs
/// of a paragraph whose numbers are below `bound`.
proof fn lemma_in_place_kept(
    before: Seq<RunCoord>,
    after: Seq<RunCoord>,
    pieces: Seq<Piece>,
    para: int,
    bound: int,
)
    requires
        pieces_in_place(before, pieces, para),
        runs_between(pieces, 0, bound),
        bound <= before.len() <= after.len(),
        forall|id: int| 0 <= id < bound ==> #[trigger] after[id] == before[id],
    ensures
        pieces_in_place(after, pieces, para),
{
    assert forall|k: int| 0 <= k < pieces.len() implies ((#[trigger] pieces[k]) matches Piece::Run(
        id,
        text,
    ) ==> id < after.len() && after[id as int].para == para && after[id as int].offset == joined(
        pieces.take(k),
    ).len() as usize && after[id as int].len == text.len() as usize) by {
        if pieces[k] is Run {
            let id = pieces[k]->Run_0;
            assert(after[id as int] == before[id as int]);
        }
    }
}

/// Adding a piece to a list whose runs stand in place leaves them in place.
proof fn lemma_in_place_add(coords: Seq<RunCoord>, pieces: Seq<Piece>, piece: Piece, para: int)
    requires
        pieces_in_place(coords, pieces, para),
        piece matches Piece::Run(id, text) ==> id < coords.len() && coords[id as int].para == para
            && coords[id as int].offset == joined(pieces).len() as usize && coords[id as int].len
            == text.len() as usize,
    ensures
        pieces_in_place(coords, pieces.push(piece), para),
{
    let longer = pieces.push(piece);
    assert forall|k: int| 0 <= k < longer.len() implies ((#[trigger] longer[k]) matches Piece::Run(
        id,
        text,
    ) ==> id < coords.len() && coords[id as int].para == para && coords[id as int].offset
        == joined(longer.take(k)).len() as usize && coords[id as int].len == text.len()
        as usize) by {
        if k < pieces.len() {
            assert(longer[k] == pieces[k]);
            assert(longer.take(k) =~= pieces.take(k));
        } else {
            assert(longer.take(k) =~= pieces);
        }
    }
}

/// Pieces that tally with a state tally with it after a piece without a
/// run has been added to the paragraph that is being read.
proof fn lemma_break_tallies(state: ScanModel, pieces: Ledger)
    requires
        tallies(state, pieces),
    ensures
        tallies(
            ScanModel { line: state.line + LINE_SEPARATOR@, ..state },
            pieces.add(Piece::Break),
        ),
{
    let after = ScanModel { line: state.line + LINE_SEPARATOR@, ..state };
    let next = pieces.add(Piece::Break);
    assert(next.open.drop_last() =~= pieces.open);
    lemma_in_place_add(state.coords, pieces.open, Piece::Break, state.paras.len() as int);
    assert forall|k: int| 0 <= k < next.open.len() implies ((#[trigger] next.open[k])
        matches Piece::Run(id, text) ==> state.line_first <= id < state.coords.len()) by {
        if k < pieces.open.len() {
            assert(next.open[k] == pieces.open[k]);
        }
    }
    assert forall|id: int| 0 <= id < after.coords.len() implies if id >= after.line_first {
        (#[trigger] after.coords[id]).para == after.paras.len() && after.coords[id].end()
            <= after.line.len()
    } else {
        after.coords[id].para == NO_PARAGRAPH || (after.coords[id].para < after.paras.len()
            && after.coords[id].end() <= after.paras[after.coords[id].para as int].len())
    } by {
        assert(state.coords[id] == after.coords[id]);
    }
}

/// Pieces that tally with a state tally with it after the paragraph that
/// is being read has been given up.
proof fn lemma_drop_tallies(state: ScanModel, pieces: Ledger)
    requires
        tallies(state, pieces),
        state.paras.len() < usize::MAX,
    ensures
        tallies(state.drop_line(), Ledger { open: Seq::empty(), ..pieces }),
{
    let after = state.drop_line();
    assert forall|i: int| 0 <= i < state.paras.len() implies pieces_in_place(
        after.coords,
        #[trigger] pieces.closed[i],
        i,
    ) && runs_between(pieces.closed[i], 0, after.line_first as int) by {
        lemma_in_place_kept(
            state.coords,
            after.coords,
            pieces.closed[i],
            i,
            state.line_first as int,
        );
    }
    assert forall|id: int| 0 <= id < after.coords.len() implies if id >= after.line_first {
        (#[trigger] after.coords[id]).para == after.paras.len() && after.coords[id].end()
            <= after.line.len()
    } else {
        after.coords[id].para == NO_PARAGRAPH || (after.coords[id].para < after.paras.len()
            && after.coords[id].end() <= after.paras[after.coords[id].para as int].len())
    } by {
        if id < state.line_first {
            assert(after.coords[id] == state.coords[id]);
        }
    }
}

/// Pieces that tally with a state tally with it after the paragraph that
/// is being read has been closed with its text.
proof fn lemma_close_tallies(state: ScanModel, pieces: Ledger)
    requires
        tallies(state, pieces),
        state.line.len() > 0,
        state.paras.len() < usize::MAX,
    ensures
        tallies(
            ScanModel {
                line: Seq::empty(),
                paras: state.paras.push(state.line),
                line_first: state.coords.len(),
                ..state
            },
            Ledger { open: Seq::empty(), closed: pieces.closed.push(pieces.open) },
        ),
{
    let after = ScanModel {
        line: Seq::empty(),
        paras: state.paras.push(state.line),
        line_first: state.coords.len(),
        ..state
    };
    let next = Ledger { open: Seq::empty(), closed: pieces.closed.push(pieces.open) };
    assert forall|i: int| 0 <= i < after.paras.len() implies {
        &&& after.paras[i] == joined(#[trigger] next.closed[i])
        &&& pieces_in_place(after.coords, next.closed[i], i)
        &&& runs_between(next.closed[i], 0, after.line_first as int)
    } by {
        if i < state.paras.len() {
            assert(next.closed[i] == pieces.closed[i]);
            assert(after.paras[i] == state.paras[i]);
        }
    }
    assert forall|id: int| 0 <= id < after.coords.len() implies if id >= after.line_first {
        (#[trigger] after.coords[id]).para == after.paras.len() && after.coords[id].end()
            <= after.line.len()
    } else {
        after.coords[id].para == NO_PARAGRAPH || (after.coords[id].para < after.paras.len()
            && after.coords[id].end() <= after.paras[after.coords[id].para as int].len())
    } by {
        assert(after.coords[id] == state.coords[id]);
        if id < state.line_first {
            if state.coords[id].para != NO_PARAGRAPH {
                assert(after.paras[state.coords[id].para as int]
                    == state.paras[state.coords[id].para as int]);
            }
        }
    }
}

/// Pieces that tally with a state tally with it after a run with the text
/// `emitted` has been added to the paragraph that is being read.
proof fn lemma_run_tallies(state: ScanModel, pieces: Ledger, emitted: Seq<char>)
    requires
        tallies(state, pieces),
        state.coords.len() < usize::MAX,
        state.paras.len() < usize::MAX,
    ensures
        tallies(
            ScanModel {
                coords: state.coords.push(
                    state.coord_for(emitted),
                ),
                line: state.line + emitted,
                ..state
            },
            pieces.add(Piece::Run(state.coords.len() as usize, emitted)),
        ),
{
    let id = state.coords.len() as usize;
    let piece = Piece::Run(id, emitted);
    let after = ScanModel {
        coords: state.coords.push(
            state.coord_for(emitted),
        ),
        line: state.line + emitted,
        ..state
    };
    let next = pieces.add(piece);
    assert(next.open.drop_last() =~= pieces.open);
    lemma_in_place_kept(
        state.coords,
        after.coords,
        pieces.open,
        state.paras.len() as int,
        state.coords.len() as int,
    );
    lemma_in_place_add(after.coords, pieces.open, piece, state.paras.len() as int);
    assert forall|k: int| 0 <= k < next.open.len() implies ((#[trigger] next.open[k])
        matches Piece::Run(run, text) ==> after.line_first <= run < after.coords.len()) by {
        if k < pieces.open.len() {
            assert(next.open[k] == pieces.open[k]);
        }
    }
    assert forall|i: int| 0 <= i < state.paras.len() implies pieces_in_place(
        after.coords,
        #[trigger] pieces.closed[i],
        i,
    ) by {
        lemma_in_place_kept(
            state.coords,
            after.coords,
            pieces.closed[i],
            i,
            state.line_first as int,
        );
    }
    assert forall|run: int| 0 <= run < after.coords.len() implies if run >= after.line_first {
        (#[trigger] after.coords[run]).para == after.paras.len() && after.coords[run].end()
            <= after.line.len()
    } else {
        after.coords[run].para == NO_PARAGRAPH || (after.coords[run].para < after.paras.len()
            && after.coords[run].end() <= after.paras[after.coords[run].para as int].len())
    } by {
        if run < state.coords.len() {
            assert(after.coords[run] == state.coords[run]);
        }
    }
}

/// One step keeps the pieces in step with the state.
proof fn lemma_step_tallies(
    before: ScanModel,
    pieces: Ledger,
    reading: Reading,
    plan: Map<usize, Seq<char>>,
    src_file: Seq<char>,
)
    requires
        tallies(before, pieces),
        before.coords.len() < usize::MAX,
        before.paras.len() < usize::MAX,
    ensures
        tallies(before.step(reading, plan, src_file), pieces.step(before, reading, plan)),
        before.step(reading, plan, src_file).coords.len() <= before.coords.len() + 1,
        before.step(reading, plan, src_file).paras.len() <= before.paras.len() + 1,
{
    let end = before.step(reading, plan, src_file);
    let next = pieces.step(before, reading, plan);
    if before.failed is None && reading.event is Some && reading.event->0.readable() {
        match reading.event {
            Some(EventModel::Text(c)) => {
                if before.mode == Mode::InRun && plain_text(c) is Some {
                    let val = plain_text(c)->0;
                    if val.len() > 0 {
                        let id = before.coords.len() as usize;
                        let emitted = if plan.contains_key(id) {
                            plan[id]
                        } else {
                            val
                        };
                        lemma_run_tallies(before, pieces, emitted);
                        let grown = ScanModel {
                            coords: before.coords.push(
                                before.coord_for(emitted),
                            ),
                            line: before.line + emitted,
                            ..before
                        };
                        assert(tallies(grown, next));
                        assert(end.coords == grown.coords && end.line == grown.line && end.paras
                            == grown.paras && end.line_first == grown.line_first);
                    }
                }
            },
            Some(EventModel::Start(n, c)) => {
                let name = reading.event->0.name();
                let rooted = if before.root_seen {
                    before
                } else {
                    before.with_root(root_attributes(n, c))
                };
                assert(tallies(rooted, pieces));
                lemma_tag_tallies(rooted, pieces, name, true);
                assert(end == rooted.open_tag(name).emit(reading.event->0.markup()));
            },
            Some(EventModel::Empty(_, _)) => {
                let name = reading.event->0.name();
                lemma_tag_tallies(before, pieces, name, false);
                assert(end == before.empty_tag(name).emit(reading.event->0.markup()));
            },
            Some(EventModel::End(_)) => {
                let name = reading.event->0.name();
                if tag_matches(name, before.aliases, encode_utf8(PARAGRAPH@)) {
                    if before.line.len() > 0 {
                        lemma_close_tallies(before, pieces);
                    } else {
                        lemma_drop_tallies(before, pieces);
                    }
                }
                assert(end == before.close_tag(name).emit(reading.event->0.markup()));
            },
            _ => {},
        }
    }
}

/// An opening or self-closing tag keeps the pieces in step with the state.
proof fn lemma_tag_tallies(state: ScanModel, pieces: Ledger, name: Seq<u8>, opening: bool)
    requires
        tallies(state, pieces),
        state.paras.len() < usize::MAX,
    ensures
        opening ==> tallies(state.open_tag(name), pieces.open_tag(state, name)),
        !opening ==> tallies(state.empty_tag(name), pieces.empty_tag(state, name)),
{
    if opening && tag_matches(name, state.aliases, encode_utf8(PARAGRAPH@)) {
        lemma_drop_tallies(state, pieces);
    } else if state.mode != Mode::Outside && tag_matches(
        name,
        state.aliases,
        encode_utf8(RUN_TEXT@),
    ) {
    } else if tag_matches(name, state.aliases, encode_utf8(LINE_BREAK@)) {
        lemma_break_tallies(state, pieces);
    }
}

/// Whether the texts tally with the pieces: the text of each paragraph, and
/// of the one that is being read, is made of its pieces.
pub open spec fn texts_tally(state: ScanModel, pieces: Ledger) -> bool {
    &&& state.line == joined(pieces.open)
    &&& pieces.closed.len() == state.paras.len()
    &&& forall|i: int|
        0 <= i < state.paras.len() ==> state.paras[i] == joined(#[trigger] pieces.closed[i])
}

/// One step keeps the texts in step with the pieces.
proof fn lemma_step_texts(
    before: ScanModel,
    pieces: Ledger,
    reading: Reading,
    plan: Map<usize, Seq<char>>,
    src_file: Seq<char>,
)
    requires
        texts_tally(before, pieces),
    ensures
        texts_tally(before.step(reading, plan, src_file), pieces.step(before, reading, plan)),
{
    let end = before.step(reading, plan, src_file);
    let next = pieces.step(before, reading, plan);
    if before.failed is None && reading.event is Some && reading.event->0.readable() {
        match reading.event {
            Some(EventModel::Text(c)) => {
                if next.open.len() > pieces.open.len() {
                    assert(next.open.drop_last() =~= pieces.open);
                }
            },
            Some(EventModel::Start(n, c)) => {
                if next.open.len() > pieces.open.len() {
                    assert(next.open.drop_last() =~= pieces.open);
                }
            },
            Some(EventModel::Empty(_, _)) => {
                if next.open.len() > pieces.open.len() {
                    assert(next.open.drop_last() =~= pieces.open);
                }
            },
            Some(EventModel::End(_)) => {
                assert forall|i: int| 0 <= i < end.paras.len() implies end.paras[i] == joined(
                    #[trigger] next.closed[i],
                ) by {
                    if i < before.paras.len() {
                        assert(next.closed[i] == pieces.closed[i]);
                        assert(end.paras[i] == before.paras[i]);
                    }
                }
            },
            _ => {},
        }
    }
}

/// The text of every paragraph is made of the texts of its runs, as they are
/// written out, and of the separators of its line breaks, in their order;
/// so its length is the sum of theirs. This holds of every part and of
/// every pass, whatever it replaces.
pub proof fn lemma_paragraph_lengths(
    readings: Seq<Reading>,
    plan: Map<usize, Seq<char>>,
    src_file: Seq<char>,
)
    ensures
        texts_tally(scan(readings, plan, src_file), ledger(readings, plan, src_file)),
        forall|i: int|
            0 <= i < scan(readings, plan, src_file).paras.len() ==> #[trigger] scan(
                readings,
                plan,
                src_file,
            ).paras[i].len() == runs_len(ledger(readings, plan, src_file).closed[i])
                + separators_len(ledger(readings, plan, src_file).closed[i]),
    decreases readings.len(),
{
    if readings.len() > 0 {
        let shorter = readings.drop_last();
        lemma_paragraph_lengths(shorter, plan, src_file);
        lemma_step_texts(
            scan(shorter, plan, src_file),
            ledger(shorter, plan, src_file),
            readings.last(),
            plan,
            src_file,
        );
    }
    let end = scan(readings, plan, src_file);
    let pieces = ledger(readings, plan, src_file);
    assert forall|i: int| 0 <= i < end.paras.len() implies #[trigger] end.paras[i].len()
        == runs_len(pieces.closed[i]) + separators_len(pieces.closed[i]) by {
        lemma_joined_len(pieces.closed[i]);
    }
}

/// The coordinates tally with the paragraphs. Each run of a paragraph
/// starts at the offset that the coordinates give for it and has the length
/// that they give, and every run that the coordinates place in a paragraph
/// lies within its text. This holds of every pass over a part whose runs a
/// machine can number.
pub proof fn lemma_coordinates_tally(
    readings: Seq<Reading>,
    plan: Map<usize, Seq<char>>,
    src_file: Seq<char>,
)
    requires
        readings.len() < usize::MAX,
    ensures
        ({
            let end = scan(readings, plan, src_file);
            let pieces = ledger(readings, plan, src_file);
            &&& tallies(end, pieces)
            &&& end.coords.len() <= readings.len()
            &&& end.paras.len() <= readings.len()
        }),
    decreases readings.len(),
{
    if readings.len() > 0 {
        let shorter = readings.drop_last();
        lemma_coordinates_tally(shorter, plan, src_file);
        let before = scan(shorter, plan, src_file);
        let old_pieces = ledger(shorter, plan, src_file);
        lemma_step_tallies(before, old_pieces, readings.last(), plan, src_file);
    }
}

/// The bytes that the events of the steps `readings` stand for, one after the other.
pub open spec fn read_markup(readings: Seq<Reading>) -> Seq<u8>
    decreases readings.len(),
{
    if readings.len() == 0 {
        Seq::empty()
    } else {
        read_markup(readings.drop_last()) + match readings.last().event {
            Some(event) => event.markup(),
            None => Seq::empty(),
        }
    }
}

/// A pass without a plan writes out every event as it was read: what it
/// writes is the markup of the events, byte for byte.
pub proof fn lemma_reading_keeps_markup(readings: Seq<Reading>, src_file: Seq<char>)
    ensures
        scan(readings, Map::empty(), src_file).failed is None ==> scan(
            readings,
            Map::empty(),
            src_file,
        ).output == read_markup(readings),
    decreases readings.len(),
{
    if readings.len() > 0 {
        lemma_reading_keeps_markup(readings.drop_last(), src_file);
        let before = scan(readings.drop_last(), Map::empty(), src_file);
        if before.failed is None {
            match readings.last().event {
                Some(event) => {
                    assert(before.step_event(
                        event,
                        readings.last().offset,
                        Map::empty(),
                        src_file,
                    ).failed is None ==> before.step_event(
                        event,
                        readings.last().offset,
                        Map::empty(),
                        src_file,
                    ).output =~= before.output + event.markup());
                },
                None => {},
            }
        }
    }
}

/// A run that the plan does not hold is written out as it was read, and
/// its text enters the paragraph as it is; only the text of a run that the
/// plan holds is replaced, by the text planned for it.
pub proof fn lemma_unplanned_run_kept(
    state: ScanModel,
    raw: Seq<u8>,
    val: Seq<char>,
    plan: Map<usize, Seq<char>>,
    src_file: Seq<char>,
)
    requires
        val.len() > 0,
    ensures
        !plan.contains_key(state.coords.len() as usize) ==> state.run_text(
            raw,
            val,
            plan,
            src_file,
        ).output == state.output + raw && state.run_text(raw, val, plan, src_file).line
            == state.line + val && state.run_text(raw, val, plan, src_file).log == state.log,
        plan.contains_key(state.coords.len() as usize) ==> state.run_text(
            raw,
            val,
            plan,
            src_file,
        ).output == state.output + encode_utf8(escaped(plan[state.coords.len() as usize]))
            && state.run_text(raw, val, plan, src_file).line == state.line
            + plan[state.coords.len() as usize],
{
}

/// Reading a part without a plan gives the same paragraphs and the same
/// coordinates every time, and never asks for the part to be written.
pub proof fn lemma_reading_is_repeatable(
    part: Seq<u8>,
    src_file: Seq<char>,
    first: ReconstructionModel,
    second: ReconstructionModel,
)
    requires
        first == reconstruction(part, Map::empty(), src_file),
        second == reconstruction(part, Map::empty(), src_file),
    ensures
        first.paras == second.paras,
        first.coords == second.coords,
        first.output == second.output,
        !first.changed,
        !second.changed,
{
}

/// Whether a part is given up, and how its runs are numbered, does not
/// depend on the plan: two passes over one part meet the same runs in the
/// same order.
pub proof fn lemma_plan_blind(
    readings: Seq<Reading>,
    plan_a: Map<usize, Seq<char>>,
    plan_b: Map<usize, Seq<char>>,
    src_file: Seq<char>,
)
    ensures
        scan(readings, plan_a, src_file).failed == scan(readings, plan_b, src_file).failed,
        scan(readings, plan_a, src_file).coords.len() == scan(
            readings,
            plan_b,
            src_file,
        ).coords.len(),
        scan(readings, plan_a, src_file).mode == scan(readings, plan_b, src_file).mode,
        scan(readings, plan_a, src_file).root_seen == scan(readings, plan_b, src_file).root_seen,
        scan(readings, plan_a, src_file).aliases == scan(readings, plan_b, src_file).aliases,
    decreases readings.len(),
{
    if readings.len() > 0 {
        lemma_plan_blind(readings.drop_last(), plan_a, plan_b, src_file);
    }
}

impl XMLUtil {
    /// Reads the part `xml` and gives the texts of its paragraphs and the
    /// coordinates of its runs. The part is written out again, with the text
    /// of each run that `replacements` holds replaced by the text planned
    /// for it; what was written is to take the part's place only where the
    /// plan holds an edit. The part is given up at the first fault of the
    /// tokenizer, and at a run whose text cannot be unescaped.
    pub fn get_replace_text(xml: &[u8], src_file: &str, replacements: &ReplacementPlan) -> (res:
        Result<Reconstruction, DocxError>)
        ensures
            ({
                let end = scan(xml_readings(xml@), planned_texts(replacements@), src_file@);
                match res {
                    Ok(r) => end.failed is None && r@ == reconstruction(
                        xml@,
                        planned_texts(replacements@),
                        src_file@,
                    ),
                    Err(e) => exists|offset: u64|
                        e == (DocxError::MalformedMarkup { offset }) && end.failed == Some(
                            offset as nat,
                        ),
                }
            }),
    {
        let ghost all = xml_readings(xml@);
        let ghost plan = planned_texts(replacements@);
        let mut reader = open_reader(xml);
        let mut state = Scan::new();
        let mut k: Ghost<int> = Ghost(0);
        assert(all.take(0) =~= Seq::<Reading>::empty());
        loop
            invariant_except_break
                0 <= k@ < all.len(),
                reader_pending(reader) == all.skip(k@),
                state@ == scan(all.take(k@), plan, src_file@),
            invariant
                all == xml_readings(xml@),
                plan == planned_texts(replacements@),
                complete_run(all),
                state@.wf(),
            ensures
                state@ == scan(all, plan, src_file@),
            decreases all.len() - k@,
        {
            let ghost reading = all[k@];
            assert(all.skip(k@)[0] == reading);
            assert(all.take(k@ + 1).drop_last() =~= all.take(k@));
            assert(all.take(k@ + 1).last() == reading);
            assert(all.skip(k@).skip(1) =~= all.skip(k@ + 1));
            let next = next_event(&mut reader);
            let offset = reader_position(&reader);
            match next {
                None => {
                    proof {
                        lemma_failure_stays(all, k@ + 1, plan, src_file@);
                    }
                    return Err(DocxError::MalformedMarkup { offset });
                },
                Some(event) => {
                    if let XmlEvent::Eof = event {
                        proof {
                            reveal(EventModel::readable);
                        }
                        assert(k@ == all.len() - 1);
                        assert(all.take(k@ + 1) =~= all);
                        break ;
                    }
                    match state.step(&event, offset, replacements, src_file) {
                        Err(e) => {
                            proof {
                                lemma_failure_stays(all, k@ + 1, plan, src_file@);
                            }
                            return Err(e);
                        },
                        Ok(_) => {
                            proof {
                                k@ = k@ + 1;
                            }
                        },
                    }
                },
            }
        }
        let changed = !replacements.is_empty();
        proof {
            if changed {
                if plan == Map::<usize, Seq<char>>::empty() {
                    assert forall|id: usize| !replacements@.contains_key(id) by {
                        assert(!plan.contains_key(id));
                    }
                    assert(replacements@ =~= Map::<usize, EntryModel>::empty());
                }
            } else {
                assert(plan =~= Map::<usize, Seq<char>>::empty());
            }
        }
        Ok(
            Reconstruction {
                paras: state.paras,
                coords: state.coords,
                output: state.output,
                log: state.log,
                changed,
            },
        )
    }
}

} // verus!
