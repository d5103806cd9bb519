use docxtools::error::DocxError;
use docxtools::package::{Outcome, Part};
use docxtools::styles::sorted_names;
use docxtools::xml_util::XMLUtil;

const DIR: &str = "unpacked";

const CONTENT_TYPES: &str = "<Types xmlns=\"http://schemas.openxmlformats.org/package/2006/content-types\">\
<Default Extension=\"rels\" ContentType=\"application/vnd.openxmlformats-package.relationships+xml\"/>\
<Override PartName=\"/word/document.xml\" ContentType=\"application/vnd.openxmlformats-officedocument.wordprocessingml.document.main+xml\"/>\
</Types>";

const STYLES: &str = "<w:styles xmlns:w=\"http://schemas.openxmlformats.org/wordprocessingml/2006/main\">\
<w:docDefaults><w:rPrDefault/></w:docDefaults>\
<w:style w:type=\"paragraph\" w:default=\"1\" w:styleId=\"Normal\"><w:name w:val=\"Normal\"/><w:qFormat/></w:style>\
<w:style w:type=\"paragraph\" w:styleId=\"Heading1\"><w:name w:val=\"heading 1\"/><w:basedOn w:val=\"Normal\"/></w:style>\
<w:style w:type=\"paragraph\" w:styleId=\"Heading3\"><w:name w:val=\"heading 3\"></w:name><w:basedOn w:val=\"Normal\"/></w:style>\
<w:style w:type=\"character\" w:styleId=\"Emphasis\"><w:name w:val=\"Emphasis\"/></w:style>\
</w:styles>";

const DOCUMENT: &str = "<w:document xmlns:w=\"http://schemas.openxmlformats.org/wordprocessingml/2006/main\"><w:body>\
<w:p><w:pPr><w:pStyle w:val=\"Heading1\"/></w:pPr><w:r><w:t>First</w:t></w:r></w:p>\
<w:p><w:pPr><w:pStyle w:val=\"Normal\"/></w:pPr><w:r><w:t>Heading 1 is a style</w:t></w:r></w:p>\
<w:p><w:pPr><w:pStyle w:val='Heading1' /><w:jc w:val=\"Heading1\"/></w:pPr><w:r><w:t>Second</w:t></w:r></w:p>\
<w:p><w:pPr><w:pStyle w:val=\"Heading11\"/></w:pPr><w:r><w:t>Third</w:t></w:r></w:p>\
<w:p><w:pPr><w:pStyle w:val=\"Heading1\"></w:pStyle></w:pPr><w:r><w:t>Fourth</w:t></w:r></w:p>\
</w:body></w:document>";

fn part(path: &str, text: &str) -> Part {
    Part { path: format!("{}/{}", DIR, path), data: text.as_bytes().to_vec() }
}

fn package() -> Vec<Part> {
    vec![
        part("[Content_Types].xml", CONTENT_TYPES),
        part("word/document.xml", DOCUMENT),
        part("word/styles.xml", STYLES),
    ]
}

fn rewritten(outcome: &Outcome, path: &str) -> String {
    let full = format!("{}/{}", DIR, path);
    for p in &outcome.rewritten {
        if p.path == full {
            return String::from_utf8(p.data.clone()).unwrap();
        }
    }
    panic!("part {} was not written", path);
}

#[test]
fn test_change_style() {
    let document = "<w:document xmlns:w=\"http://schemas.openxmlformats.org/wordprocessingml/2006/main\"><w:body>\
<w:p><w:pPr><w:pStyle w:val=\"Heading1\"/></w:pPr><w:r><w:t>First</w:t></w:r></w:p>\
<w:p><w:pPr><w:pStyle w:val=\"Normal\"/></w:pPr><w:r><w:t>Text</w:t></w:r></w:p>\
<w:p><w:pPr><w:pStyle w:val=\"Heading1\"/></w:pPr><w:r><w:t>Second</w:t></w:r></w:p>\
<w:p><w:pPr><w:pStyle w:val=\"Heading1\"/></w:pPr><w:r><w:t>Third</w:t></w:r></w:p>\
</w:body></w:document>";
    let mut parts = package();
    parts[1] = part("word/document.xml", document);

    let before = document.to_string();
    let match_indexes: Vec<_> = before.match_indices("Heading1").map(|(i, _)| i).collect();

    assert!(before.contains("Heading1"), "Precondition");
    let outcome =
        XMLUtil::change_style(DIR, "headings.docx", "Heading 1", "Heading 3", &None, &parts).unwrap();

    let after = rewritten(&outcome, "word/document.xml");

    for idx in match_indexes {
        let new_val = &after[idx..idx + "Heading1".len()];
        assert_eq!("Heading3", new_val);
    }
    assert_eq!(3, after.match_indices("Heading3").count());
}

#[test]
fn change_style_touches_only_paragraph_styles() {
    let parts = package();
    let before = DOCUMENT.to_string();
    let match_indexes: Vec<_> = before.match_indices("\"Heading1\"").map(|(i, _)| i).collect();
    assert!(before.contains("Heading1"), "Precondition");

    let outcome =
        XMLUtil::change_style(DIR, "headings.docx", "Heading 1", "Heading 3", &None, &parts).unwrap();
    assert_eq!(outcome.archive, Some("headings.docx".to_string()));
    assert_eq!(outcome.rewritten.len(), 1);
    let after = rewritten(&outcome, "word/document.xml");

    assert_eq!(3, after.match_indices("Heading3").count());
    assert_eq!(1, after.match_indices("\"Heading1\"").count());
    assert!(after.contains("<w:jc w:val=\"Heading1\"/>"));
    assert!(after.contains("<w:pStyle w:val=\"Heading11\"/>"));
    assert!(after.contains("Heading 1 is a style"));
    assert_eq!(3, match_indexes.len());
    assert_eq!(
        after,
        DOCUMENT
            .replace("<w:pStyle w:val=\"Heading1\"", "<w:pStyle w:val=\"Heading3\"")
            .replace("<w:pStyle w:val='Heading1' />", "<w:pStyle w:val=\"Heading3\"/>")
    );
    assert_eq!(
        outcome.lines,
        vec![
            "headings.docx: w:val=Heading1".to_string(),
            "headings.docx: w:val=Heading1".to_string(),
            "headings.docx: w:val=Heading1".to_string(),
        ]
    );
}

#[test]
fn unknown_style_lists_the_known_names() {
    let parts = package();
    match XMLUtil::change_style(DIR, "headings.docx", "Heading 2", "Heading 3", &None, &parts) {
        Err(DocxError::UnknownStyle { known }) => {
            assert_eq!(known, vec!["Emphasis", "heading 1", "heading 3", "Normal"]);
        }
        _ => panic!("expected an unknown style"),
    }
    assert!(matches!(
        XMLUtil::change_style(DIR, "headings.docx", "Heading 1", "No such style", &None, &parts),
        Err(DocxError::UnknownStyle { .. })
    ));
}

#[test]
fn style_names_are_found_in_any_case() {
    let parts = package();
    let outcome =
        XMLUtil::change_style(DIR, "h.docx", "HEADING 1", "normal", &Some("out.docx"), &parts).unwrap();
    assert_eq!(outcome.archive, Some("out.docx".to_string()));
    let after = rewritten(&outcome, "word/document.xml");
    assert_eq!(4, after.match_indices("\"Normal\"").count());
}

#[test]
fn style_that_is_not_used_changes_nothing() {
    let parts = package();
    let outcome = XMLUtil::change_style(DIR, "h.docx", "Emphasis", "Normal", &None, &parts).unwrap();
    assert!(outcome.rewritten.is_empty());
    assert!(outcome.lines.is_empty());
    assert!(outcome.archive.is_none());
}

#[test]
fn styles_part_is_needed() {
    let mut parts = package();
    parts.pop();
    match XMLUtil::change_style(DIR, "h.docx", "Heading 1", "Heading 3", &None, &parts) {
        Err(DocxError::MissingPart { path }) => assert_eq!(path, "word/styles.xml"),
        _ => panic!("expected a missing part"),
    }
}

#[test]
fn style_without_identifier_is_reported() {
    let mut parts = package();
    parts[2] = part(
        "word/styles.xml",
        "<w:styles xmlns:w=\"http://schemas.openxmlformats.org/wordprocessingml/2006/main\">\
<w:style w:type=\"paragraph\"><w:name w:val=\"Normal\"/></w:style></w:styles>",
    );
    match XMLUtil::change_style(DIR, "h.docx", "Heading 1", "Heading 3", &None, &parts) {
        Err(DocxError::MissingAttribute { name }) => assert_eq!(name, "styleId"),
        _ => panic!("expected a missing attribute"),
    }
}

#[test]
fn all_styles_are_read() {
    let styles = XMLUtil::get_all_styles(STYLES.as_bytes()).unwrap();
    assert_eq!(styles.keys, vec!["Normal", "heading 1", "heading 3", "Emphasis"]);
    assert_eq!(styles.values, vec!["Normal", "Heading1", "Heading3", "Emphasis"]);
    assert_eq!(styles.get("HEADING 3").map(|s| s.as_str()), Some("Heading3"));
    assert_eq!(styles.get("heading 4"), None);
}

#[test]
fn names_are_sorted_without_regard_to_case() {
    let names: Vec<String> =
        vec!["delta", "Alpha", "charlie", "Bravo", "alpha"].into_iter().map(String::from).collect();
    assert_eq!(sorted_names(&names), vec!["Alpha", "alpha", "Bravo", "charlie", "delta"]);
}
