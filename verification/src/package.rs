//! The operations on a whole package.
//!
//! A package is handed over as the list of its parts, each with its path and
//! its bytes, in the order in which the parts are to be gone through. An
//! operation goes through the parts that it is meant for and gives the lines
//! to show, the parts that are to be written again, and the file to which the
//! package is then to be packed.

use crate::attrs::{attribute_pass, style_pass, RuleModel, TARGET};
use crate::error::DocxError;
use crate::file_util::{sub_path, FileUtil};
use crate::listing::{attribute_lines, cat_lines, grep_lines, AttributeQuery, AttributeQueryModel};
use crate::pattern::Matcher;
use crate::reconstruct::scan;
use crate::replace::replaced;
use crate::stream::{part_events, part_fault};
use crate::text::{same_text, texts, to_chars};
use crate::xml::xml_readings;
use crate::xml_util::XMLUtil;
use vstd::prelude::*;
use vstd::string::StringExecFns;
use vstd::utf8::encode_utf8;

verus! {

/// The ending of the path of a part that holds XML.
pub const XML_SUFFIX: &'static str = ".xml";

/// One part of a package.
#[derive(Clone, Debug)]
pub struct Part {
    /// The path of the part: that of the package's directory, then that of the part in it.
    pub path: String,
    /// The bytes of the part.
    pub data: Vec<u8>,
}

/// The mathematical value of a [`Part`].
pub struct PartModel {
    pub path: Seq<char>,
    pub data: Seq<u8>,
}

impl View for Part {
    type V = PartModel;

    open spec fn view(&self) -> PartModel {
        PartModel { path: self.path@, data: self.data@ }
    }
}

/// The values of a list of parts.
pub open spec fn part_views(parts: Seq<Part>) -> Seq<PartModel> {
    Seq::new(parts.len(), |i: int| parts[i]@)
}

/// What is to be done with each part.
pub enum Mode {
    /// List the values of an attribute.
    CatAttrCondition(AttributeQuery),
    /// List the text of the paragraphs.
    Cat,
    /// List the paragraphs in which the pattern matches.
    Grep { regex: Matcher },
    /// Replace every match in the text.
    Replace { regex: Matcher, replacement: String },
    /// Replace every match in the targets of the relationships.
    ReplaceAttribute { regex: Matcher, replacement: String },
    /// Give the paragraphs that have one style another one.
    StyleChange { style: String, replacement: String },
}

/// The mathematical value of a [`Mode`].
pub enum ModeModel {
    CatAttrCondition(AttributeQueryModel),
    Cat,
    Grep { pattern: Seq<char> },
    Replace { pattern: Seq<char>, replacement: Seq<char> },
    ReplaceAttribute { pattern: Seq<char>, replacement: Seq<char> },
    StyleChange { style: Seq<char>, replacement: Seq<char> },
}

impl View for Mode {
    type V = ModeModel;

    open spec fn view(&self) -> ModeModel {
        match self {
            Mode::CatAttrCondition(query) => ModeModel::CatAttrCondition(query@),
            Mode::Cat => ModeModel::Cat,
            Mode::Grep { regex } => ModeModel::Grep { pattern: regex@ },
            Mode::Replace { regex, replacement } => ModeModel::Replace {
                pattern: regex@,
                replacement: replacement@,
            },
            Mode::ReplaceAttribute { regex, replacement } => ModeModel::ReplaceAttribute {
                pattern: regex@,
                replacement: replacement@,
            },
            Mode::StyleChange { style, replacement } => ModeModel::StyleChange {
                style: style@,
                replacement: replacement@,
            },
        }
    }
}

/// What an operation gives on one part.
pub struct FileOutcome {
    /// The lines to show.
    pub lines: Vec<String>,
    /// The bytes that are to take the place of the part, where it changes.
    pub rewritten: Option<Vec<u8>>,
}

/// The mathematical value of a [`FileOutcome`].
pub struct FileOutcomeModel {
    pub lines: Seq<Seq<char>>,
    pub rewritten: Option<Seq<u8>>,
}

impl View for FileOutcome {
    type V = FileOutcomeModel;

    open spec fn view(&self) -> FileOutcomeModel {
        FileOutcomeModel {
            lines: texts(self.lines@),
            rewritten: match self.rewritten {
                Some(data) => Some(data@),
                None => None,
            },
        }
    }
}

/// The byte offset at which the part `data` is given up under `mode`, if it is.
pub open spec fn file_fault(mode: ModeModel, data: Seq<u8>, src_file: Seq<char>) -> Option<nat> {
    match mode {
        ModeModel::Cat | ModeModel::Grep { .. } | ModeModel::Replace { .. } => scan(
            xml_readings(data),
            Map::empty(),
            src_file,
        ).failed,
        _ => part_fault(data),
    }
}

/// What `mode` gives on the part `data`, where the part is not given up.
pub open spec fn file_outcome(
    mode: ModeModel,
    data: Seq<u8>,
    src_file: Seq<char>,
) -> FileOutcomeModel {
    match mode {
        ModeModel::Cat => FileOutcomeModel {
            lines: cat_lines(scan(xml_readings(data), Map::empty(), src_file).paras, src_file),
            rewritten: None,
        },
        ModeModel::Grep { pattern } => FileOutcomeModel {
            lines: grep_lines(
                scan(xml_readings(data), Map::empty(), src_file).paras,
                pattern,
                src_file,
            ),
            rewritten: None,
        },
        ModeModel::Replace { pattern, replacement } => match replaced(
            data,
            src_file,
            pattern,
            replacement,
        ) {
            Some(written) => FileOutcomeModel {
                lines: written.log,
                rewritten: Some(written.output),
            },
            None => FileOutcomeModel { lines: Seq::empty(), rewritten: None },
        },
        ModeModel::ReplaceAttribute { pattern, replacement } => {
            let pass = attribute_pass(
                part_events(data),
                Some(encode_utf8(TARGET@)),
                RuleModel::Pattern(pattern, replacement),
                src_file,
            );
            FileOutcomeModel {
                lines: pass.lines,
                rewritten: if pass.changed {
                    Some(pass.output)
                } else {
                    None
                },
            }
        },
        ModeModel::CatAttrCondition(query) => FileOutcomeModel {
            lines: attribute_lines(part_events(data), query, src_file),
            rewritten: None,
        },
        ModeModel::StyleChange { style, replacement } => {
            let pass = style_pass(part_events(data), style, replacement, src_file).rewrite;
            FileOutcomeModel {
                lines: pass.lines,
                rewritten: if pass.changed {
                    Some(pass.output)
                } else {
                    None
                },
            }
        },
    }
}

/// Whether `suffix` stands at the end of `text`.
pub open spec fn ends_with(text: Seq<char>, suffix: Seq<char>) -> bool {
    suffix.len() <= text.len() && text.skip(text.len() - suffix.len()) == suffix
}

/// Whether an operation is meant for the part with path `sub`: one of the
/// parts `files` where they are given, and any part that holds XML where not.
pub open spec fn is_selected(sub: Seq<char>, files: Option<Seq<Seq<char>>>) -> bool {
    match files {
        Some(list) => list.contains(sub),
        None => ends_with(sub, XML_SUFFIX@),
    }
}

/// The state of an operation that goes through the parts of a package.
pub struct PassModel {
    /// The lines to show.
    pub lines: Seq<Seq<char>>,
    /// The parts that are to be written again, with their new bytes.
    pub rewritten: Seq<PartModel>,
    /// The byte offset at which a part was given up, if one was.
    pub failed: Option<nat>,
}

/// What `mode` gives on the parts `parts` of the package in directory `dir`.
/// Nothing follows a part that is given up.
pub open spec fn package_pass(
    mode: ModeModel,
    dir: Seq<char>,
    src_file: Seq<char>,
    files: Option<Seq<Seq<char>>>,
    parts: Seq<PartModel>,
) -> PassModel
    decreases parts.len(),
{
    if parts.len() == 0 {
        PassModel { lines: Seq::empty(), rewritten: Seq::empty(), failed: None }
    } else {
        let before = package_pass(mode, dir, src_file, files, parts.drop_last());
        let part = parts.last();
        if before.failed is Some || !is_selected(sub_path(part.path, dir), files) {
            before
        } else {
            match file_fault(mode, part.data, src_file) {
                Some(offset) => PassModel { failed: Some(offset), ..before },
                None => {
                    let outcome = file_outcome(mode, part.data, src_file);
                    PassModel {
                        lines: before.lines + outcome.lines,
                        rewritten: match outcome.rewritten {
                            Some(data) => before.rewritten.push(
                                PartModel { path: part.path, data },
                            ),
                            None => before.rewritten,
                        },
                        failed: None,
                    }
                },
            }
        }
    }
}

/// Once a part has been given up, the parts after it change nothing.
pub proof fn lemma_pass_failure_stays(
    mode: ModeModel,
    dir: Seq<char>,
    src_file: Seq<char>,
    files: Option<Seq<Seq<char>>>,
    parts: Seq<PartModel>,
    n: int,
)
    requires
        0 <= n <= parts.len(),
        package_pass(mode, dir, src_file, files, parts.take(n)).failed is Some,
    ensures
        package_pass(mode, dir, src_file, files, parts) == package_pass(
            mode,
            dir,
            src_file,
            files,
            parts.take(n),
        ),
    decreases parts.len() - n,
{
    if n < parts.len() {
        assert(parts.take(n + 1).drop_last() =~= parts.take(n));
        lemma_pass_failure_stays(mode, dir, src_file, files, parts, n + 1);
    } else {
        assert(parts.take(n) =~= parts);
    }
}

/// Only parts that an operation is meant for are written again: every part
/// among those to be written is a part of the package with that path for
/// which the operation is meant.
pub proof fn lemma_only_selected_parts_change(
    mode: ModeModel,
    dir: Seq<char>,
    src_file: Seq<char>,
    files: Option<Seq<Seq<char>>>,
    parts: Seq<PartModel>,
)
    ensures
        forall|k: int|
            0 <= k < package_pass(mode, dir, src_file, files, parts).rewritten.len() ==> exists|
                i: int,
            |
                0 <= i < parts.len() && (#[trigger] parts[i]).path == (#[trigger] package_pass(
                    mode,
                    dir,
                    src_file,
                    files,
                    parts,
                ).rewritten[k]).path && is_selected(sub_path(parts[i].path, dir), files),
    decreases parts.len(),
{
    if parts.len() > 0 {
        let shorter = parts.drop_last();
        lemma_only_selected_parts_change(mode, dir, src_file, files, shorter);
        let before = package_pass(mode, dir, src_file, files, shorter);
        let pass = package_pass(mode, dir, src_file, files, parts);
        assert forall|k: int| 0 <= k < pass.rewritten.len() implies exists|i: int|
            0 <= i < parts.len() && (#[trigger] parts[i]).path == (#[trigger] pass.rewritten[k]).path
                && is_selected(sub_path(parts[i].path, dir), files) by {
            if k < before.rewritten.len() {
                assert(pass.rewritten[k] == before.rewritten[k]);
                let i = choose|i: int|
                    0 <= i < shorter.len() && (#[trigger] shorter[i]).path == (
                    #[trigger] before.rewritten[k]).path && is_selected(
                        sub_path(shorter[i].path, dir),
                        files,
                    );
                assert(parts[i] == shorter[i]);
            } else {
                assert(parts[parts.len() - 1].path == pass.rewritten[k].path);
            }
        }
    }
}

/// What an operation gives on a package.
#[derive(Debug)]
pub struct Outcome {
    /// The lines to show.
    pub lines: Vec<String>,
    /// The parts that are to be written again, with their new bytes.
    pub rewritten: Vec<Part>,
    /// The file to which the package is then to be packed: none where no part changed.
    pub archive: Option<String>,
}

/// The mathematical value of an [`Outcome`].
pub struct OutcomeModel {
    pub lines: Seq<Seq<char>>,
    pub rewritten: Seq<PartModel>,
    pub archive: Option<Seq<char>>,
}

impl View for Outcome {
    type V = OutcomeModel;

    open spec fn view(&self) -> OutcomeModel {
        OutcomeModel {
            lines: texts(self.lines@),
            rewritten: part_views(self.rewritten@),
            archive: match self.archive {
                Some(file) => Some(file@),
                None => None,
            },
        }
    }
}

/// The file to which a package is packed after an operation that is to
/// pack it to `output_file`: that file where a part is written again, and
/// none where no part changed.
pub open spec fn packed_to(output_file: Option<Seq<char>>, rewritten: Seq<PartModel>) -> Option<
    Seq<char>,
> {
    if rewritten.len() > 0 {
        output_file
    } else {
        None
    }
}

/// The view of an optional list of paths.
pub open spec fn files_view(files: Option<&Vec<String>>) -> Option<Seq<Seq<char>>> {
    match files {
        Some(list) => Some(texts(list@)),
        None => None,
    }
}

/// The view of an optional text.
pub open spec fn text_view(text: Option<&str>) -> Option<Seq<char>> {
    match text {
        Some(t) => Some(t@),
        None => None,
    }
}

/// Tells whether `text` ends with `suffix`.
fn has_suffix(text: &str, suffix: &str) -> (res: bool)
    ensures
        res == ends_with(text@, suffix@),
{
    let a = to_chars(text);
    let b = to_chars(suffix);
    if b.len() > a.len() {
        return false;
    }
    let shift = a.len() - b.len();
    let mut i: usize = 0;
    while i < b.len()
        invariant
            i <= b.len() <= a.len(),
            a@ == text@,
            b@ == suffix@,
            shift == a.len() - b.len(),
            forall|k: int| 0 <= k < i ==> a@[shift + k] == b@[k],
        decreases b.len() - i,
    {
        if a[shift + i] != b[i] {
            assert(a@.skip(a@.len() - b@.len())[i as int] == a@[shift + i]);
            return false;
        }
        i += 1;
    }
    assert(a@.skip(a@.len() - b@.len()) =~= b@);
    true
}

/// Tells whether `list` holds the text `text`.
fn holds_text(list: &Vec<String>, text: &str) -> (res: bool)
    ensures
        res == texts(list@).contains(text@),
{
    let mut i: usize = 0;
    while i < list.len()
        invariant
            i <= list.len(),
            forall|k: int| 0 <= k < i ==> texts(list@)[k] != text@,
        decreases list.len() - i,
    {
        if same_text(list[i].as_str(), text) {
            assert(texts(list@)[i as int] == text@);
            return true;
        }
        i += 1;
    }
    false
}

impl XMLUtil {
    /// Does on the part `data` what `mode` says.
    pub fn snr_xml_file(mode: &Mode, data: &[u8], src_file: &str) -> (res: Result<
        FileOutcome,
        DocxError,
    >)
        ensures
            match res {
                Ok(outcome) => file_fault(mode@, data@, src_file@) is None && outcome@
                    == file_outcome(mode@, data@, src_file@),
                Err(e) => exists|offset: u64|
                    e == (DocxError::MalformedMarkup { offset }) && file_fault(
                        mode@,
                        data@,
                        src_file@,
                    ) == Some(offset as nat),
            },
    {
        match mode {
            Mode::Cat => match Self::cat_text(data, src_file) {
                Ok(lines) => Ok(FileOutcome { lines, rewritten: None }),
                Err(e) => Err(e),
            },
            Mode::ReplaceAttribute { regex, replacement } => match Self::snr_change_attribute(
                data,
                Some(TARGET),
                regex,
                replacement.as_str(),
                src_file,
            ) {
                Ok(rewrite) => {
                    let rewritten = if rewrite.changed {
                        Some(rewrite.output)
                    } else {
                        None
                    };
                    Ok(FileOutcome { lines: rewrite.lines, rewritten })
                },
                Err(e) => Err(e),
            },
            Mode::CatAttrCondition(query) => match Self::cat_xml_attribute(query, data, src_file) {
                Ok(lines) => Ok(FileOutcome { lines, rewritten: None }),
                Err(e) => Err(e),
            },
            Mode::Grep { regex } => match Self::grep_text(data, src_file, regex) {
                Ok(lines) => Ok(FileOutcome { lines, rewritten: None }),
                Err(e) => Err(e),
            },
            Mode::Replace { regex, replacement } => match Self::replace_text(
                data,
                src_file,
                regex,
                replacement.as_str(),
            ) {
                Ok(Some(written)) => Ok(
                    FileOutcome { lines: written.log, rewritten: Some(written.output) },
                ),
                Ok(None) => {
                    let lines: Vec<String> = Vec::new();
                    assert(texts(lines@) =~= Seq::<Seq<char>>::empty());
                    Ok(FileOutcome { lines, rewritten: None })
                },
                Err(e) => Err(e),
            },
            Mode::StyleChange { style, replacement } => match Self::style_change(
                data,
                src_file,
                style.as_str(),
                replacement.as_str(),
            ) {
                Ok(rewrite) => {
                    let rewritten = if rewrite.changed {
                        Some(rewrite.output)
                    } else {
                        None
                    };
                    Ok(FileOutcome { lines: rewrite.lines, rewritten })
                },
                Err(e) => Err(e),
            },
        }
    }

    /// Goes through the parts `parts` of the package in directory `dir` and
    /// does on each part that is meant what `mode` says: on the parts
    /// `files` where they are given, and on every part that holds XML where
    /// not. The first part that is given up ends the operation. The package
    /// is to be packed to `output_file` only where a part changed.
    pub fn snr_xml(
        mode: &Mode,
        dir: &str,
        src_file: &str,
        files: Option<&Vec<String>>,
        output_file: Option<&str>,
        parts: &Vec<Part>,
    ) -> (res: Result<Outcome, DocxError>)
        ensures
            ({
                let pass = package_pass(
                    mode@,
                    dir@,
                    src_file@,
                    files_view(files),
                    part_views(parts@),
                );
                match res {
                    Ok(outcome) => pass.failed is None && outcome@ == (OutcomeModel {
                        lines: pass.lines,
                        rewritten: pass.rewritten,
                        archive: packed_to(text_view(output_file), pass.rewritten),
                    }),
                    Err(e) => exists|offset: u64|
                        e == (DocxError::MalformedMarkup { offset }) && pass.failed == Some(
                            offset as nat,
                        ),
                }
            }),
    {
        let ghost all = part_views(parts@);
        let ghost chosen = files_view(files);
        let mut lines: Vec<String> = Vec::new();
        let mut rewritten: Vec<Part> = Vec::new();
        assert(all.take(0) =~= Seq::<PartModel>::empty());
        assert(texts(lines@) =~= Seq::<Seq<char>>::empty());
        assert(part_views(rewritten@) =~= Seq::<PartModel>::empty());
        let mut i: usize = 0;
        while i < parts.len()
            invariant
                i <= parts.len(),
                all == part_views(parts@),
                chosen == files_view(files),
                package_pass(mode@, dir@, src_file@, chosen, all.take(i as int)) == (PassModel {
                    lines: texts(lines@),
                    rewritten: part_views(rewritten@),
                    failed: None,
                }),
            decreases parts.len() - i,
        {
            assert(all.take(i + 1).drop_last() =~= all.take(i as int));
            assert(all.take(i + 1).last() == parts@[i as int]@);
            let part = &parts[i];
            let sub = FileUtil::get_sub_path(part.path.as_str(), dir);
            let wanted = match files {
                Some(file_list) => holds_text(file_list, sub.as_str()),
                None => has_suffix(sub.as_str(), XML_SUFFIX),
            };
            if wanted {
                match Self::snr_xml_file(mode, part.data.as_slice(), src_file) {
                    Ok(outcome) => {
                        let FileOutcome { lines: new_lines, rewritten: new_data } = outcome;
                        let mut new_lines = new_lines;
                        let ghost listed = texts(lines@);
                        let ghost added = texts(new_lines@);
                        lines.append(&mut new_lines);
                        assert(texts(lines@) =~= listed + added);
                        if let Some(data) = new_data {
                            let ghost written = part_views(rewritten@);
                            let again = Part { path: part.path.clone(), data };
                            rewritten.push(again);
                            assert(part_views(rewritten@) =~= written.push(again@));
                        }
                    },
                    Err(e) => {
                        proof {
                            lemma_pass_failure_stays(mode@, dir@, src_file@, chosen, all, i + 1);
                        }
                        return Err(e);
                    },
                }
            }
            i += 1;
        }
        assert(all.take(parts.len() as int) =~= all);
        let archive = match output_file {
            Some(file) => if rewritten.len() > 0 {
                Some(String::from_str(file))
            } else {
                None
            },
            None => None,
        };
        Ok(Outcome { lines, rewritten, archive })
    }
}

} // verus!
