//! The operations on a package, as a program offers them.

use crate::dictionary::{Dictionary, DictionaryModel};
use crate::error::DocxError;
use crate::file_util::{sub_path, FileUtil};
use crate::listing::{AttributeQuery, AttributeQueryModel};
use crate::lookup::{
    content_types, first_unplaced, keys_with_value, relationships_paths, CONTENT_TYPES_PART,
    RELATION_MT, WORDDOC_MT,
};
use crate::package::{
    package_pass, packed_to, part_views, Mode, ModeModel, Outcome, OutcomeModel, Part, PartModel,
};
use crate::pattern::{regex_compiles, Matcher};
use crate::stream::{part_events, part_fault};
use crate::styles::{sorted, sorted_names, style_scan, STYLES_PART};
use crate::text::{same_text, texts};
use vstd::prelude::*;
use vstd::string::StringExecFns;

verus! {

/// Operations on the XML parts of a word-processing package. The package is
/// handed over as the list of its parts, taken out of the archive.
pub struct XMLUtil {}

/// Why an operation is given up, in mathematical terms.
pub enum Fault {
    MalformedMarkup(nat),
    InvalidPattern(Seq<char>),
    /// The names of the styles that are known, in the order of the catalogue.
    UnknownStyle(Seq<Seq<char>>),
    MissingPart(Seq<char>),
    Undeclared(Seq<char>),
    Unplaced(Seq<char>),
    MissingAttribute(Seq<char>),
}

/// Whether the error `e` reports the failure `fault`. The names of the known
/// styles are reported in sorted order, case left out of account.
pub open spec fn reports(e: DocxError, fault: Fault) -> bool {
    match (e, fault) {
        (DocxError::MalformedMarkup { offset }, Fault::MalformedMarkup(at)) => offset == at,
        (DocxError::InvalidPattern { pattern }, Fault::InvalidPattern(text)) => pattern@ == text,
        (DocxError::UnknownStyle { known }, Fault::UnknownStyle(names)) => texts(
            known@,
        ).to_multiset() == names.to_multiset() && sorted(texts(known@)),
        (DocxError::MissingPart { path }, Fault::MissingPart(text)) => path@ == text,
        (DocxError::Undeclared { content_type }, Fault::Undeclared(text)) => content_type@ == text,
        (DocxError::Unplaced { path }, Fault::Unplaced(text)) => path@ == text,
        (DocxError::MissingAttribute { name }, Fault::MissingAttribute(text)) => name@ == text,
        _ => false,
    }
}

/// Whether the result `res` of an operation is what `expected` says.
pub open spec fn gives(
    res: Result<Outcome, DocxError>,
    expected: Result<OutcomeModel, Fault>,
) -> bool {
    match res {
        Ok(outcome) => expected == Ok::<OutcomeModel, Fault>(outcome@),
        Err(e) => expected matches Err(fault) && reports(e, fault),
    }
}

/// The bytes of the first of `parts` that has the path `name` in the directory `dir`.
pub open spec fn package_part(parts: Seq<PartModel>, dir: Seq<char>, name: Seq<char>) -> Option<
    Seq<u8>,
>
    decreases parts.len(),
{
    if parts.len() == 0 {
        None
    } else {
        match package_part(parts.drop_last(), dir, name) {
            Some(data) => Some(data),
            None => if sub_path(parts.last().path, dir) == name {
                Some(parts.last().data)
            } else {
                None
            },
        }
    }
}

/// A part found among the first `n` parts is the one found among all of them.
pub proof fn lemma_package_part(parts: Seq<PartModel>, dir: Seq<char>, name: Seq<char>, n: int)
    requires
        0 <= n <= parts.len(),
        package_part(parts.take(n), dir, name) is Some,
    ensures
        package_part(parts, dir, name) == package_part(parts.take(n), dir, name),
    decreases parts.len() - n,
{
    if n < parts.len() {
        assert(parts.take(n + 1).drop_last() =~= parts.take(n));
        lemma_package_part(parts, dir, name, n + 1);
    } else {
        assert(parts.take(n) =~= parts);
    }
}

/// What an operation gives that goes through the parts under `mode` and is
/// to pack the package to `archive`, if a part changes.
pub open spec fn pass_result(
    mode: ModeModel,
    dir: Seq<char>,
    src_file: Seq<char>,
    files: Option<Seq<Seq<char>>>,
    archive: Option<Seq<char>>,
    parts: Seq<PartModel>,
) -> Result<OutcomeModel, Fault> {
    let pass = package_pass(mode, dir, src_file, files, parts);
    match pass.failed {
        Some(offset) => Err(Fault::MalformedMarkup(offset)),
        None => Ok(
            OutcomeModel {
                lines: pass.lines,
                rewritten: pass.rewritten,
                archive: packed_to(archive, pass.rewritten),
            },
        ),
    }
}

/// The extensions that the package registers, and the paths of its parts of
/// content type `content_type`.
pub open spec fn typed_files(
    parts: Seq<PartModel>,
    dir: Seq<char>,
    content_type: Seq<char>,
) -> Result<
    (DictionaryModel, Seq<Seq<char>>),
    Fault,
> {
    match package_part(parts, dir, CONTENT_TYPES_PART@) {
        None => Err(Fault::MissingPart(CONTENT_TYPES_PART@)),
        Some(data) => match part_fault(data) {
            Some(offset) => Err(Fault::MalformedMarkup(offset)),
            None => {
                let types = content_types(part_events(data));
                Ok(
                    (
                        types.defaults,
                        keys_with_value(types.mappings.keys, types.mappings.values, content_type),
                    ),
                )
            },
        },
    }
}

/// The paths of the parts that hold the relationships of the main parts of the document.
pub open spec fn relationship_files(parts: Seq<PartModel>, dir: Seq<char>) -> Result<
    Seq<Seq<char>>,
    Fault,
> {
    match typed_files(parts, dir, WORDDOC_MT@) {
        Err(fault) => Err(fault),
        Ok((defaults, files)) => match defaults.get(RELATION_MT@) {
            None => Err(Fault::Undeclared(RELATION_MT@)),
            Some(extension) => match relationships_paths(files, extension) {
                Some(paths) => Ok(paths),
                None => Err(Fault::Unplaced(first_unplaced(files)->0)),
            },
        },
    }
}

/// The file to which a package is packed: the one that is named, or the document itself.
pub open spec fn out_file(output_file: Option<Seq<char>>, src_file: Seq<char>) -> Seq<char> {
    match output_file {
        Some(file) => file,
        None => src_file,
    }
}

/// The identifiers of the styles with the names `style` and `replacement`.
pub open spec fn style_ids(
    parts: Seq<PartModel>,
    dir: Seq<char>,
    style: Seq<char>,
    replacement: Seq<char>,
) -> Result<(Seq<char>, Seq<char>), Fault> {
    match package_part(parts, dir, STYLES_PART@) {
        None => Err(Fault::MissingPart(STYLES_PART@)),
        Some(data) => match part_fault(data) {
            Some(offset) => Err(Fault::MalformedMarkup(offset)),
            None => {
                let read = style_scan(part_events(data));
                match read.failed {
                    Some(name) => Err(Fault::MissingAttribute(name)),
                    None => match (read.styles.get(style), read.styles.get(replacement)) {
                        (Some(src), Some(dest)) => Ok((src, dest)),
                        _ => Err(Fault::UnknownStyle(read.styles.keys)),
                    },
                }
            },
        },
    }
}

/// What listing the text of a document gives.
pub open spec fn cat_result(dir: Seq<char>, src_file: Seq<char>, parts: Seq<PartModel>) -> Result<
    OutcomeModel,
    Fault,
> {
    pass_result(ModeModel::Cat, dir, src_file, None, None, parts)
}

/// What listing the values of an attribute of the relationships gives.
pub open spec fn cat_rel_attr_result(
    query: AttributeQueryModel,
    dir: Seq<char>,
    src_file: Seq<char>,
    parts: Seq<PartModel>,
) -> Result<OutcomeModel, Fault> {
    match relationship_files(parts, dir) {
        Err(fault) => Err(fault),
        Ok(files) => pass_result(
            ModeModel::CatAttrCondition(query),
            dir,
            src_file,
            Some(files),
            None,
            parts,
        ),
    }
}

/// What listing the paragraphs in which a pattern matches gives.
pub open spec fn grep_result(
    dir: Seq<char>,
    src_file: Seq<char>,
    pattern: Seq<char>,
    parts: Seq<PartModel>,
) -> Result<OutcomeModel, Fault> {
    if regex_compiles(pattern) {
        pass_result(ModeModel::Grep { pattern }, dir, src_file, None, None, parts)
    } else {
        Err(Fault::InvalidPattern(pattern))
    }
}

/// What replacing the matches of a pattern in the text of a document gives.
pub open spec fn replace_result(
    dir: Seq<char>,
    src_file: Seq<char>,
    pattern: Seq<char>,
    replacement: Seq<char>,
    output_file: Option<Seq<char>>,
    parts: Seq<PartModel>,
) -> Result<OutcomeModel, Fault> {
    match typed_files(parts, dir, WORDDOC_MT@) {
        Err(fault) => Err(fault),
        Ok((_, files)) => if regex_compiles(pattern) {
            pass_result(
                ModeModel::Replace { pattern, replacement },
                dir,
                src_file,
                Some(files),
                Some(out_file(output_file, src_file)),
                parts,
            )
        } else {
            Err(Fault::InvalidPattern(pattern))
        },
    }
}

/// What replacing the matches of a pattern in the relationships of a document gives.
pub open spec fn replace_rel_attr_result(
    dir: Seq<char>,
    src_file: Seq<char>,
    pattern: Seq<char>,
    replacement: Seq<char>,
    output_file: Option<Seq<char>>,
    parts: Seq<PartModel>,
) -> Result<OutcomeModel, Fault> {
    match relationship_files(parts, dir) {
        Err(fault) => Err(fault),
        Ok(files) => if regex_compiles(pattern) {
            pass_result(
                ModeModel::ReplaceAttribute { pattern, replacement },
                dir,
                src_file,
                Some(files),
                Some(out_file(output_file, src_file)),
                parts,
            )
        } else {
            Err(Fault::InvalidPattern(pattern))
        },
    }
}

/// What giving the paragraphs of one style another style gives.
pub open spec fn change_style_result(
    dir: Seq<char>,
    src_file: Seq<char>,
    style: Seq<char>,
    replacement: Seq<char>,
    output_file: Option<Seq<char>>,
    parts: Seq<PartModel>,
) -> Result<OutcomeModel, Fault> {
    match typed_files(parts, dir, WORDDOC_MT@) {
        Err(fault) => Err(fault),
        Ok((_, files)) => match style_ids(parts, dir, style, replacement) {
            Err(fault) => Err(fault),
            Ok((src, dest)) => pass_result(
                ModeModel::StyleChange { style: src, replacement: dest },
                dir,
                src_file,
                Some(files),
                Some(out_file(output_file, src_file)),
                parts,
            ),
        },
    }
}

/// Giving paragraphs another style fails for an unknown name, and only
/// then for that reason: where the styles of the package can be read, the
/// operation reports the names of all of them if one of the two names is
/// the name of none, case left out of account, and does not report them
/// if both are names of styles.
pub proof fn lemma_unknown_style(
    dir: Seq<char>,
    src_file: Seq<char>,
    style: Seq<char>,
    replacement: Seq<char>,
    output_file: Option<Seq<char>>,
    parts: Seq<PartModel>,
)
    requires
        typed_files(parts, dir, WORDDOC_MT@) is Ok,
        package_part(parts, dir, STYLES_PART@) matches Some(data) && part_fault(data) is None
            && style_scan(part_events(data)).failed is None,
    ensures
        ({
            let styles = style_scan(part_events(package_part(parts, dir, STYLES_PART@)->0)).styles;
            let result = change_style_result(dir, src_file, style, replacement, output_file, parts);
            if styles.get(style) is Some && styles.get(replacement) is Some {
                !(result matches Err(Fault::UnknownStyle(_)))
            } else {
                result == Err::<OutcomeModel, Fault>(Fault::UnknownStyle(styles.keys))
            }
        }),
{
}

/// The view of an optional text.
pub open spec fn name_view(text: &Option<&str>) -> Option<Seq<char>> {
    match text {
        Some(t) => Some(t@),
        None => None,
    }
}

/// The parts that hold relationships can be named for all of `files` but
/// where one of them lies in no directory.
pub proof fn lemma_unplaced(files: Seq<Seq<char>>, extension: Seq<char>)
    ensures
        relationships_paths(files, extension) is None <==> first_unplaced(files) is Some,
    decreases files.len(),
{
    if files.len() > 0 {
        lemma_unplaced(files.drop_last(), extension);
    }
}

impl XMLUtil {
    /// Finds the first of `parts` that has the path `name` in the directory `dir`.
    pub fn find_part(parts: &Vec<Part>, dir: &str, name: &str) -> (res: Option<usize>)
        ensures
            match res {
                Some(i) => i < parts.len() && package_part(part_views(parts@), dir@, name@) == Some(
                    parts@[i as int].data@,
                ),
                None => package_part(part_views(parts@), dir@, name@) is None,
            },
    {
        let ghost all = part_views(parts@);
        assert(all.take(0) =~= Seq::<PartModel>::empty());
        let mut i: usize = 0;
        while i < parts.len()
            invariant
                i <= parts.len(),
                all == part_views(parts@),
                package_part(all.take(i as int), dir@, name@) is None,
            decreases parts.len() - i,
        {
            assert(all.take(i + 1).drop_last() =~= all.take(i as int));
            assert(all.take(i + 1).last() == parts@[i as int]@);
            let sub = FileUtil::get_sub_path(parts[i].path.as_str(), dir);
            if same_text(sub.as_str(), name) {
                proof {
                    lemma_package_part(all, dir@, name@, i + 1);
                }
                return Some(i);
            }
            i += 1;
        }
        assert(all.take(parts.len() as int) =~= all);
        None
    }

    /// The extensions that the package registers, and the paths of its parts
    /// of content type `content_type`.
    pub fn typed_files(parts: &Vec<Part>, dir: &str, content_type: &str) -> (res: Result<
        (Dictionary, Vec<String>),
        DocxError,
    >)
        ensures
            match res {
                Ok((defaults, files)) => typed_files(part_views(parts@), dir@, content_type@) == Ok::<
                    (DictionaryModel, Seq<Seq<char>>),
                    Fault,
                >((defaults@, texts(files@))) && defaults.wf(),
                Err(e) => typed_files(part_views(parts@), dir@, content_type@) matches Err(fault)
                    && reports(e, fault),
            },
    {
        match Self::find_part(parts, dir, CONTENT_TYPES_PART) {
            Some(i) => Self::get_files_with_content_type(parts[i].data.as_slice(), content_type),
            None => Err(DocxError::MissingPart { path: String::from_str(CONTENT_TYPES_PART) }),
        }
    }

    /// The paths of the parts that hold the relationships of the main parts
    /// of the document.
    pub fn relationship_files(parts: &Vec<Part>, dir: &str) -> (res: Result<Vec<String>, DocxError>)
        ensures
            match res {
                Ok(files) => relationship_files(part_views(parts@), dir@) == Ok::<
                    Seq<Seq<char>>,
                    Fault,
                >(texts(files@)),
                Err(e) => relationship_files(part_views(parts@), dir@) matches Err(fault)
                    && reports(e, fault),
            },
    {
        match Self::find_part(parts, dir, CONTENT_TYPES_PART) {
            Some(i) => {
                let res = Self::get_rel_files(parts[i].data.as_slice());
                proof {
                    let data = parts@[i as int].data@;
                    let types = content_types(part_events(data));
                    let files = keys_with_value(
                        types.mappings.keys,
                        types.mappings.values,
                        WORDDOC_MT@,
                    );
                    if types.defaults.get(RELATION_MT@) is Some {
                        lemma_unplaced(files, types.defaults.get(RELATION_MT@)->0);
                    }
                }
                res
            },
            None => Err(DocxError::MissingPart { path: String::from_str(CONTENT_TYPES_PART) }),
        }
    }

    /// Gives the file to which the package is to be packed, and the paths of
    /// the main parts of the document.
    pub fn invoke_with_files_and_output<'a>(
        dir: &str,
        src_file: &'a str,
        output_file: &Option<&'a str>,
        parts: &Vec<Part>,
    ) -> (res: Result<(Vec<String>, &'a str), DocxError>)
        ensures
            match res {
                Ok((files, file)) => file@ == out_file(name_view(output_file), src_file@) && (
                typed_files(part_views(parts@), dir@, WORDDOC_MT@) matches Ok(found) && found.1
                    == texts(files@)),
                Err(e) => typed_files(part_views(parts@), dir@, WORDDOC_MT@) matches Err(fault)
                    && reports(e, fault),
            },
    {
        let file: &'a str = match output_file {
            Some(of) => of,
            None => src_file,
        };
        match Self::typed_files(parts, dir, WORDDOC_MT) {
            Ok((_, files)) => Ok((files, file)),
            Err(e) => Err(e),
        }
    }

    /// Lists the text of the document: one line for each paragraph of each
    /// part that holds XML.
    pub fn cat(dir: &str, src_file: &str, parts: &Vec<Part>) -> (res: Result<Outcome, DocxError>)
        ensures
            gives(res, cat_result(dir@, src_file@, part_views(parts@))),
    {
        Self::snr_xml(&Mode::Cat, dir, src_file, None, None, parts)
    }

    /// Lists the values of the attribute `attr_name` of the elements
    /// `el_name` whose attribute `cond_key` has the value `cond_val`, in the
    /// parts that hold the relationships of the document.
    pub fn cat_rel_attr(
        el_name: &str,
        attr_name: &str,
        cond_key: &str,
        cond_val: &str,
        dir: &str,
        src_file: &str,
        parts: &Vec<Part>,
    ) -> (res: Result<Outcome, DocxError>)
        ensures
            gives(
                res,
                cat_rel_attr_result(
                    AttributeQueryModel {
                        tagname: el_name@,
                        attrname: attr_name@,
                        condkey: cond_key@,
                        condval: cond_val@,
                    },
                    dir@,
                    src_file@,
                    part_views(parts@),
                ),
            ),
    {
        let fref = match Self::relationship_files(parts, dir) {
            Ok(fref) => fref,
            Err(e) => {
                return Err(e);
            },
        };
        let mode = Mode::CatAttrCondition(
            AttributeQuery {
                tagname: String::from_str(el_name),
                attrname: String::from_str(attr_name),
                condkey: String::from_str(cond_key),
                condval: String::from_str(cond_val),
            },
        );
        Self::snr_xml(&mode, dir, src_file, Some(&fref), None, parts)
    }

    /// Gives every paragraph of the document that has the style shown as
    /// `style` the style shown as `replacement`. Both names have to be names
    /// of styles of the package, case left out of account.
    pub fn change_style(
        dir: &str,
        src_file: &str,
        style: &str,
        replacement: &str,
        output_file: &Option<&str>,
        parts: &Vec<Part>,
    ) -> (res: Result<Outcome, DocxError>)
        ensures
            gives(
                res,
                change_style_result(
                    dir@,
                    src_file@,
                    style@,
                    replacement@,
                    name_view(output_file),
                    part_views(parts@),
                ),
            ),
    {
        let (files, file) = match Self::invoke_with_files_and_output(
            dir,
            src_file,
            output_file,
            parts,
        ) {
            Ok(found) => found,
            Err(e) => {
                return Err(e);
            },
        };
        let styles = match Self::find_part(parts, dir, STYLES_PART) {
            Some(i) => match Self::get_all_styles(parts[i].data.as_slice()) {
                Ok(styles) => styles,
                Err(e) => {
                    return Err(e);
                },
            },
            None => {
                return Err(DocxError::MissingPart { path: String::from_str(STYLES_PART) });
            },
        };
        let src = styles.get(style);
        let dest = styles.get(replacement);
        match (src, dest) {
            (Some(src_id), Some(dest_id)) => {
                let mode = Mode::StyleChange {
                    style: src_id.clone(),
                    replacement: dest_id.clone(),
                };
                Self::snr_xml(&mode, dir, src_file, Some(&files), Some(file), parts)
            },
            _ => Err(DocxError::UnknownStyle { known: sorted_names(&styles.keys) }),
        }
    }

    /// Lists the paragraphs of the document in which the regular expression
    /// `pattern` matches.
    pub fn grep_xml(dir: &str, src_file: &str, pattern: &str, parts: &Vec<Part>) -> (res: Result<
        Outcome,
        DocxError,
    >)
        ensures
            gives(res, grep_result(dir@, src_file@, pattern@, part_views(parts@))),
    {
        match Matcher::new(pattern) {
            Some(regex) => {
                let mode = Mode::Grep { regex };
                Self::snr_xml(&mode, dir, src_file, None, None, parts)
            },
            None => Err(DocxError::InvalidPattern { pattern: String::from_str(pattern) }),
        }
    }

    /// Replaces every match of the regular expression `pattern` in the text
    /// of the main parts of the document by `replacement`. The package is
    /// to be packed to `output_file`, or to the document itself where none
    /// is given.
    pub fn replace_xml(
        dir: &str,
        src_file: &str,
        pattern: &str,
        replacement: &str,
        output_file: &Option<&str>,
        parts: &Vec<Part>,
    ) -> (res: Result<Outcome, DocxError>)
        ensures
            gives(
                res,
                replace_result(
                    dir@,
                    src_file@,
                    pattern@,
                    replacement@,
                    name_view(output_file),
                    part_views(parts@),
                ),
            ),
    {
        let (files, file) = match Self::invoke_with_files_and_output(
            dir,
            src_file,
            output_file,
            parts,
        ) {
            Ok(found) => found,
            Err(e) => {
                return Err(e);
            },
        };
        match Matcher::new(pattern) {
            Some(regex) => {
                let mode = Mode::Replace { regex, replacement: String::from_str(replacement) };
                Self::snr_xml(&mode, dir, src_file, Some(&files), Some(file), parts)
            },
            None => Err(DocxError::InvalidPattern { pattern: String::from_str(pattern) }),
        }
    }

    /// Replaces every match of the regular expression `pattern` in the
    /// targets of the relationships of the document by `replace`: in the
    /// values of the attributes `Target` of the parts that hold the
    /// relationships, and nowhere else.
    pub fn replace_rel_attr(
        dir: &str,
        src_file: &str,
        pattern: &str,
        replace: &str,
        output_file: &Option<&str>,
        parts: &Vec<Part>,
    ) -> (res: Result<Outcome, DocxError>)
        ensures
            gives(
                res,
                replace_rel_attr_result(
                    dir@,
                    src_file@,
                    pattern@,
                    replace@,
                    name_view(output_file),
                    part_views(parts@),
                ),
            ),
    {
        let fref = match Self::relationship_files(parts, dir) {
            Ok(fref) => fref,
            Err(e) => {
                return Err(e);
            },
        };
        let file: &str = match output_file {
            Some(of) => of,
            None => src_file,
        };
        match Matcher::new(pattern) {
            Some(regex) => {
                let mode = Mode::ReplaceAttribute { regex, replacement: String::from_str(replace) };
                Self::snr_xml(&mode, dir, src_file, Some(&fref), Some(file), parts)
            },
            None => Err(DocxError::InvalidPattern { pattern: String::from_str(pattern) }),
        }
    }
}

} // verus!
