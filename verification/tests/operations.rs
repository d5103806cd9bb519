use docxtools::error::DocxError;
use docxtools::package::{Outcome, Part};
use docxtools::xml_util::XMLUtil;

const DIR: &str = "/tmp/unpacked";

const CONTENT_TYPES: &str = "<?xml version=\"1.0\" encoding=\"UTF-8\" standalone=\"yes\"?>\n\
<Types xmlns=\"http://schemas.openxmlformats.org/package/2006/content-types\">\
<Default Extension=\"rels\" ContentType=\"application/vnd.openxmlformats-package.relationships+xml\"/>\
<Default Extension=\"xml\" ContentType=\"application/xml\"/>\
<Override PartName=\"/word/document.xml\" ContentType=\"application/vnd.openxmlformats-officedocument.wordprocessingml.document.main+xml\"/>\
<Override PartName=\"/word/styles.xml\" ContentType=\"application/vnd.openxmlformats-officedocument.wordprocessingml.styles+xml\"/>\
</Types>";

const DOC_HEAD: &str = "<?xml version=\"1.0\" encoding=\"UTF-8\" standalone=\"yes\"?>\n\
<w:document xmlns:r=\"http://schemas.openxmlformats.org/officeDocument/2006/relationships\" \
xmlns:w=\"http://schemas.openxmlformats.org/wordprocessingml/2006/main\"><w:body>";

const DOC_TAIL: &str = "</w:body></w:document>";

const RELS: &str = "<?xml version=\"1.0\" encoding=\"UTF-8\" standalone=\"yes\"?>\n\
<Relationships xmlns=\"http://schemas.openxmlformats.org/package/2006/relationships\">\
<Relationship Id=\"rId1\" Type=\"http://schemas.openxmlformats.org/officeDocument/2006/relationships/webSettings\" Target=\"webSettings.xml\"/>\
<Relationship Id=\"rId2\" Type=\"http://schemas.openxmlformats.org/officeDocument/2006/relationships/hyperlink\" Target=\"http://www.example.com/\" TargetMode=\"External\"/>\
<Relationship Id=\"rId3\" Type=\"http://schemas.openxmlformats.org/officeDocument/2006/relationships/hyperlink\" Target=\"http://www.example.com/somewhere\" TargetMode=\"External\"/>\
<Relationship Id=\"rId4\" Type=\"http://schemas.openxmlformats.org/officeDocument/2006/relationships/hyperlink\" Target=\"https://www.example.com/somewhere\" TargetMode=\"External\"/>\
<Relationship Id=\"rId5\" Type=\"http://schemas.openxmlformats.org/officeDocument/2006/relationships/hyperlink\" Target=\"file://www.example.com/infosheet.pdf\" TargetMode=\"External\"/>\
</Relationships>";

fn para(runs: &[&str]) -> String {
    let mut p = String::from("<w:p><w:pPr><w:pStyle w:val=\"Normal\"/></w:pPr>");
    for run in runs {
        p.push_str("<w:r><w:rPr><w:b/></w:rPr><w:t xml:space=\"preserve\">");
        p.push_str(run);
        p.push_str("</w:t></w:r>");
    }
    p.push_str("</w:p>");
    p
}

fn plain_document() -> String {
    let mut doc = String::from(DOC_HEAD);
    doc.push_str(&para(&["Testing 123"]));
    doc.push_str(&para(&["And some some some more text", " and then some"]));
    doc.push_str(&para(&["Something here"]));
    doc.push_str(&para(&["Here\u{2019}s a hyperlink:"]));
    doc.push_str(&para(&["www.example.com"]));
    doc.push_str(&para(&["And here\u{2019}s just ", "some", " text:"]));
    doc.push_str(&para(&["Some ", "more"]));
    doc.push_str("<w:p/>");
    doc.push_str(DOC_TAIL);
    doc
}

fn broken_word_document() -> String {
    let mut doc = String::from(DOC_HEAD);
    doc.push_str("<w:p>");
    doc.push_str("<w:r><w:t xml:space=\"preserve\">Notwithstanding the eventual re</w:t></w:r>");
    doc.push_str("<w:r><w:t>sult</w:t></w:r>");
    doc.push_str("<w:r><w:t xml:space=\"preserve\">ing quotations punters were agreeable to a technocratic compromise.</w:t></w:r>");
    doc.push_str("<w:r><w:br/><w:t>Here\u{2019}s another line of text.</w:t></w:r>");
    doc.push_str("</w:p>");
    doc.push_str(&para(&["And this text is in the next paragraph."]));
    doc.push_str(DOC_TAIL);
    doc
}

fn part(path: &str, text: &str) -> Part {
    Part { path: format!("{}/{}", DIR, path), data: text.as_bytes().to_vec() }
}

fn package(document: &str) -> Vec<Part> {
    vec![
        part("[Content_Types].xml", CONTENT_TYPES),
        part("_rels/.rels", "<Relationships/>"),
        part("word/_rels/document.xml.rels", RELS),
        part("word/document.xml", document),
        part("word/media/image1.png", "\u{0}\u{1}binary"),
    ]
}

fn apply(parts: &mut Vec<Part>, outcome: &Outcome) {
    for again in &outcome.rewritten {
        for p in parts.iter_mut() {
            if p.path == again.path {
                p.data = again.data.clone();
            }
        }
    }
}

fn text_of(parts: &Vec<Part>, path: &str) -> String {
    let full = format!("{}/{}", DIR, path);
    for p in parts {
        if p.path == full {
            return String::from_utf8(p.data.clone()).unwrap();
        }
    }
    panic!("no part {}", path);
}

fn shown(outcome: &Outcome) -> String {
    let mut out = String::new();
    for line in &outcome.lines {
        out.push_str(line);
        out.push('\n');
    }
    out
}

#[test]
fn test_cat() {
    let parts = package(&plain_document());
    let outcome = XMLUtil::cat(DIR, "my-file.docx", &parts).unwrap();
    let out = shown(&outcome);
    assert!(out.contains("my-file.docx: Testing 123"));
    assert!(out.contains("my-file.docx: Here\u{2019}s a hyperlink:"));
    assert!(outcome.rewritten.is_empty());
    assert!(outcome.archive.is_none());
}

#[test]
fn test_cat2() {
    let parts = package(&broken_word_document());
    let out = shown(&XMLUtil::cat(DIR, "wordbreak.docx", &parts).unwrap());
    let expected =
        "wordbreak.docx: Notwithstanding the eventual resulting quotations punters were agreeable to a technocratic compromise.".to_string()
        + "\n" + "Here\u{2019}s another line of text.";
    let idx1 = out.find(&expected).unwrap();
    let idx2 = out.find("wordbreak.docx: And this text is in the next paragraph.").unwrap();

    assert!(idx1 < idx2);
}

#[test]
fn test_grep() {
    let parts = package(&plain_document());
    let out = shown(&XMLUtil::grep_xml(DIR, "doc123.docx", "[oe]re", &parts).unwrap());
    println!("out: {}", out);
    assert!(out.contains("doc123.docx: And some some some more text"));
    assert!(out.contains("doc123.docx: Something here"));
    assert!(out.contains("doc123.docx: Here\u{2019}s a hyperlink:"));
    assert!(out.contains("doc123.docx: And here\u{2019}s just some text:"));
    assert!(!out.contains("Target"));
    assert!(!out.contains("Testing 123"));
}

#[test]
fn test_links() {
    let parts = package(&plain_document());
    let out = shown(
        &XMLUtil::cat_rel_attr(
            "Relationship",
            "Target",
            "Type",
            "http://schemas.openxmlformats.org/officeDocument/2006/relationships/hyperlink",
            DIR,
            "testing789.docx",
            &parts,
        )
        .unwrap(),
    );
    assert!(out.contains("testing789.docx: http://www.example.com/somewhere"));
    assert!(out.contains("testing789.docx: https://www.example.com/somewhere"));
    assert!(out.contains("testing789.docx: file://www.example.com/infosheet.pdf"));
    assert!(!out.contains("Target=webSettings.xml"));
    assert!(!out.contains("webSettings.xml"));
}

#[test]
fn test_replace_shorten() {
    let mut parts = package(&plain_document());
    let before = text_of(&parts, "word/document.xml");
    assert!(before.contains("And some some some more text"), "Precondition");
    assert!(before.contains("and then some"), "Precondition");
    assert!(before.contains("Something here"), "Precondition");
    assert!(before.contains(">some<"), "Precondition");
    assert!(before.contains(">Some <"), "Precondition");
    assert!(!before.contains("zzz"), "Precondition");

    let outcome = XMLUtil::replace_xml(
        DIR,
        "my-source.docx",
        "[Ss]ome",
        "zzz",
        &Some("/tmp/output.docx"),
        &parts,
    )
    .unwrap();
    assert_eq!(outcome.archive, Some("/tmp/output.docx".to_string()));
    assert_eq!(outcome.rewritten.len(), 1);
    apply(&mut parts, &outcome);

    let after = text_of(&parts, "word/document.xml");
    assert!(after.contains("And zzz zzz zzz more text"));
    assert!(after.contains("and then zzz"));
    assert!(after.contains("zzzthing here"));
    assert!(after.contains(">zzz"));
    assert!(!after.contains("some"));
    assert!(!after.contains("Some"));
    assert_eq!(after, before.replace("some", "zzz").replace("Some", "zzz"));
}

#[test]
fn test_replace_make_longer() {
    let mut parts = package(&plain_document());
    let before = text_of(&parts, "word/document.xml");
    assert!(before.contains("And some some some more text"), "Precondition");
    assert!(before.contains("and then some"), "Precondition");
    assert!(before.contains("Something here"), "Precondition");
    assert!(before.contains(">some<"), "Precondition");
    assert!(before.contains(">Some <"), "Precondition");
    assert!(!before.contains("zzz"), "Precondition");
    let outcome = XMLUtil::replace_xml(
        DIR,
        "my-source.docx",
        "[Ss]ome",
        "ABCDEF",
        &Some("/tmp/output.docx"),
        &parts,
    )
    .unwrap();
    apply(&mut parts, &outcome);

    let after = text_of(&parts, "word/document.xml");
    assert!(after.contains("And ABCDEF ABCDEF ABCDEF more text"));
    assert!(after.contains("and then ABCDEF"));
    assert!(after.contains("ABCDEFthing here"));
    assert!(after.contains(">ABCDEF"));
    assert!(!after.contains("some"));
    assert!(!after.contains("Some"));
    assert_eq!(after, before.replace("some", "ABCDEF").replace("Some", "ABCDEF"));
}

#[test]
fn test_replace_across_tags() {
    let mut parts = package(&broken_word_document());
    let before = text_of(&parts, "word/document.xml");
    assert!(before.contains("re"), "Precondition");
    assert!(before.contains("sult"), "Precondition");
    assert!(before.contains("ing"), "Precondition");
    assert!(!before.contains("resulting"), "Precondition");

    let outcome =
        XMLUtil::replace_xml(DIR, "acrstags.docx", "resulting", "1234567890", &Some("/tmp/output.docx"), &parts)
            .unwrap();
    apply(&mut parts, &outcome);

    let after = text_of(&parts, "word/document.xml");
    assert!(after.contains("eventual 12<"));
    assert!(after.contains(">3456<"));
    assert!(after.contains(">7890 quotations"));
    assert!(!after.contains("1234567890"));
}

#[test]
fn test_replace_across_tags0() {
    let mut parts = package(&broken_word_document());
    let before = text_of(&parts, "word/document.xml");
    assert!(before.contains("re"), "Precondition");
    assert!(before.contains("sult"), "Precondition");
    assert!(before.contains("ing"), "Precondition");
    assert!(!before.contains("resulting"), "Precondition");
    let outcome =
        XMLUtil::replace_xml(DIR, "acrstags.docx", "resulting", "1", &Some("/tmp/output.docx"), &parts).unwrap();
    apply(&mut parts, &outcome);

    let after = text_of(&parts, "word/document.xml");
    assert!(after.contains("eventual 1<"));
    assert!(after.contains("><"));
    assert!(after.contains("<w:t></w:t>"));
    assert!(after.contains("> quotations"));
}

#[test]
fn test_replace_across_tags1() {
    let mut parts = package(&broken_word_document());
    let before = text_of(&parts, "word/document.xml");
    assert!(before.contains("re"), "Precondition");
    assert!(before.contains("sult"), "Precondition");
    assert!(before.contains("ing"), "Precondition");
    assert!(!before.contains("resulting"), "Precondition");
    let outcome =
        XMLUtil::replace_xml(DIR, "acrstags.docx", "resulting", "123", &Some("/tmp/output.docx"), &parts).unwrap();
    apply(&mut parts, &outcome);

    let after = text_of(&parts, "word/document.xml");
    assert!(after.contains("eventual 12<"));
    assert!(after.contains(">3<"));
    assert!(after.contains("> quotations"));
}

#[test]
fn test_replace_across_tags2() {
    let mut parts = package(&plain_document());
    let outcome =
        XMLUtil::replace_xml(DIR, "xyz.docx", "(text and|then some)", "aaa", &None, &parts).unwrap();
    assert_eq!(outcome.archive, Some("xyz.docx".to_string()));
    apply(&mut parts, &outcome);

    let after = text_of(&parts, "word/document.xml");
    assert!(after.contains("some more aaa</w:t"));
    assert!(after.contains("> aaa<"));
}

#[test]
fn test_replace_across_tags3() {
    let mut parts = package(&plain_document());
    let outcome =
        XMLUtil::replace_xml(DIR, "xyz.docx", "(text and|then some)", "bbbbb", &None, &parts).unwrap();
    apply(&mut parts, &outcome);

    let after = text_of(&parts, "word/document.xml");
    assert!(after.contains("some more bbbb</w:t"));
    assert!(after.contains(">b bbbbb<"));
}

#[test]
fn test_replace_hyperlink() {
    let mut parts = package(&plain_document());
    let before_doc = text_of(&parts, "word/document.xml");
    let before = text_of(&parts, "word/_rels/document.xml.rels");

    assert!(before.contains("Target=\"http://www.example.com/\""), "Precondition");
    assert!(before_doc.contains(">www.example.com<"), "Precondition");

    let outcome = XMLUtil::replace_rel_attr(
        DIR,
        "my-source.docx",
        "www.example.com",
        "foobar.org",
        &Some("/tmp/output-2.docx"),
        &parts,
    )
    .unwrap();
    assert_eq!(outcome.rewritten.len(), 1);
    assert!(shown(&outcome).contains("my-source.docx: Target=http://www.example.com/"));
    apply(&mut parts, &outcome);

    let after_doc = text_of(&parts, "word/document.xml");
    let after = text_of(&parts, "word/_rels/document.xml.rels");

    assert!(after.contains("Target=\"http://foobar.org/\""));
    assert!(after.contains("Target=\"webSettings.xml\""));
    assert!(after_doc.contains(">www.example.com<"), "Should not have changed the document text");
    assert_eq!(after_doc, before_doc);
}

fn second_package() -> Vec<Part> {
    let mut doc = String::from(DOC_HEAD);
    doc.push_str(&para(&["And some some more text", " and then some"]));
    doc.push_str(&para(&["Something here"]));
    doc.push_str(&para(&["www.example.com"]));
    doc.push_str(&para(&["some"]));
    doc.push_str(&para(&["Some ", "more"]));
    doc.push_str(DOC_TAIL);
    vec![
        part("[Content_Types].xml", &CONTENT_TYPES.replace("/word/document.xml", "/word/document2.xml")),
        part("word/_rels/document2.xml.rels", RELS),
        part("word/document2.xml", &doc),
    ]
}

#[test]
fn test_replace_both() {
    let mut parts = second_package();
    let before = text_of(&parts, "word/document2.xml");
    assert!(before.contains("And some some more text"), "Precondition");
    assert!(before.contains("and then some"), "Precondition");
    assert!(before.contains("Something here"), "Precondition");
    assert!(before.contains(">some<"), "Precondition");
    assert!(before.contains(">Some <"), "Precondition");
    assert!(before.contains(">www.example.com<"), "Precondition");
    assert!(!before.contains("zzz"), "Precondition");

    let before_rels = text_of(&parts, "word/_rels/document2.xml.rels");
    assert!(before_rels.contains("Target=\"http://www.example.com/\""), "Precondition");

    let first = XMLUtil::replace_xml(DIR, "my-source.docx", "[Ss]ome", "zzz", &Some("/tmp/output.docx"), &parts)
        .unwrap();
    apply(&mut parts, &first);
    let second = XMLUtil::replace_rel_attr(
        DIR,
        "my-source.docx",
        "www.example.com",
        "foobar.org",
        &Some("/tmp/output-2.docx"),
        &parts,
    )
    .unwrap();
    apply(&mut parts, &second);

    // Check that the replacement worked as expected
    let after = text_of(&parts, "word/document2.xml");
    println!("After: {}", after);
    assert!(after.contains("And zzz zzz more text"));
    assert!(after.contains("and then zzz"));
    assert!(after.contains("zzzthing here"));
    assert!(after.contains(">zzz"));
    assert!(after.contains(">www.example.com<"), "Should not have changed the document text");
    assert!(!after.contains("some"));
    assert!(!after.contains("Some"));

    let after_rels = text_of(&parts, "word/_rels/document2.xml.rels");
    assert!(after_rels.contains("Target=\"http://foobar.org/\""));
}

#[test]
fn replace_without_match_writes_nothing() {
    let parts = package(&plain_document());
    let outcome =
        XMLUtil::replace_xml(DIR, "my-source.docx", "no such text", "zzz", &Some("/tmp/o.docx"), &parts).unwrap();
    assert!(outcome.rewritten.is_empty());
    assert!(outcome.lines.is_empty());
    assert!(outcome.archive.is_none());
    let links = XMLUtil::replace_rel_attr(DIR, "my-source.docx", "no such link", "x", &None, &parts).unwrap();
    assert!(links.rewritten.is_empty());
    assert!(links.lines.is_empty());
    assert!(links.archive.is_none());
}

#[test]
fn replace_links_changes_targets_only() {
    let parts = package(&plain_document());
    let by_type = XMLUtil::replace_rel_attr(DIR, "a.docx", "hyperlink", "x", &Some("/tmp/o.docx"), &parts).unwrap();
    assert!(by_type.rewritten.is_empty());
    assert!(by_type.lines.is_empty());
    assert!(by_type.archive.is_none());
    let by_id = XMLUtil::replace_rel_attr(DIR, "a.docx", "rId2|External", "x", &None, &parts).unwrap();
    assert!(by_id.rewritten.is_empty());

    let mut parts = parts;
    let outcome = XMLUtil::replace_rel_attr(DIR, "a.docx", "[a-z]+://", "ftp://", &None, &parts).unwrap();
    assert_eq!(outcome.archive, Some("a.docx".to_string()));
    apply(&mut parts, &outcome);
    let after = text_of(&parts, "word/_rels/document.xml.rels");
    assert!(after.contains("Type=\"http://schemas.openxmlformats.org/officeDocument/2006/relationships/hyperlink\""));
    assert!(after.contains("Target=\"ftp://www.example.com/somewhere\""));
    assert!(after.contains("Target=\"ftp://www.example.com/infosheet.pdf\""));
    assert!(after.contains("Target=\"webSettings.xml\""));
    assert_eq!(outcome.lines.len(), 4);
}

#[test]
fn replace_reports_each_changed_run() {
    let parts = package(&broken_word_document());
    let outcome = XMLUtil::replace_xml(DIR, "a.docx", "resulting", "1", &None, &parts).unwrap();
    assert_eq!(
        outcome.lines,
        vec![
            "a.docx: Notwithstanding the eventual re\n-> Notwithstanding the eventual 1".to_string(),
            "a.docx: sult\n-> ".to_string(),
            "a.docx: ing quotations punters were agreeable to a technocratic compromise.\n->  quotations punters were agreeable to a technocratic compromise.".to_string(),
        ]
    );
}

#[test]
fn invalid_pattern_is_reported() {
    let parts = package(&plain_document());
    match XMLUtil::replace_xml(DIR, "a.docx", "foo(bar", "x", &None, &parts) {
        Err(DocxError::InvalidPattern { pattern }) => assert_eq!(pattern, "foo(bar"),
        _ => panic!("expected an invalid pattern"),
    }
    assert!(matches!(
        XMLUtil::grep_xml(DIR, "a.docx", "[", &parts),
        Err(DocxError::InvalidPattern { .. })
    ));
    assert!(matches!(
        XMLUtil::replace_rel_attr(DIR, "a.docx", "(", "x", &None, &parts),
        Err(DocxError::InvalidPattern { .. })
    ));
}

#[test]
fn malformed_part_is_reported() {
    let mut doc = String::from(DOC_HEAD);
    doc.push_str("<w:p><w:r><w:t>abc</w:r></w:p>");
    let parts = package(&doc);
    match XMLUtil::cat(DIR, "a.docx", &parts) {
        Err(DocxError::MalformedMarkup { offset }) => assert!(offset > 0),
        _ => panic!("expected malformed markup"),
    }
    let mut bad = String::from(DOC_HEAD);
    bad.push_str("<w:p><w:r><w:t>a &nosuch; b</w:t></w:r></w:p>");
    bad.push_str(DOC_TAIL);
    let parts = package(&bad);
    assert!(matches!(XMLUtil::cat(DIR, "a.docx", &parts), Err(DocxError::MalformedMarkup { .. })));
}

#[test]
fn missing_content_types_are_reported() {
    let parts = vec![part("word/document.xml", &plain_document())];
    match XMLUtil::replace_xml(DIR, "a.docx", "x", "y", &None, &parts) {
        Err(DocxError::MissingPart { path }) => assert_eq!(path, "[Content_Types].xml"),
        _ => panic!("expected a missing part"),
    }
}

#[test]
fn entities_count_as_one_character() {
    let mut doc = String::from(DOC_HEAD);
    doc.push_str(&para(&["a &amp; b ", "&lt;tag&gt; some text"]));
    doc.push_str(DOC_TAIL);
    let mut parts = package(&doc);
    let out = shown(&XMLUtil::cat(DIR, "a.docx", &parts).unwrap());
    assert!(out.contains("a.docx: a & b <tag> some text"));
    let outcome = XMLUtil::replace_xml(DIR, "a.docx", "b <tag>", "\"x\" & y", &None, &parts).unwrap();
    apply(&mut parts, &outcome);
    let after = text_of(&parts, "word/document.xml");
    assert!(after.contains(">a &amp; &quot;x<"));
    assert!(after.contains(">&quot; &amp; y some text<"));
}

#[test]
fn positions_are_counted_in_characters() {
    let mut doc = String::from(DOC_HEAD);
    doc.push_str(&para(&["\u{e9}\u{e9}\u{e9} caf\u{e9} re", "sult"]));
    doc.push_str(DOC_TAIL);
    let mut parts = package(&doc);
    let outcome = XMLUtil::replace_xml(DIR, "a.docx", "result", "\u{fc}\u{fc}\u{fc}\u{fc}", &None, &parts).unwrap();
    apply(&mut parts, &outcome);
    let after = text_of(&parts, "word/document.xml");
    assert!(after.contains(">\u{e9}\u{e9}\u{e9} caf\u{e9} \u{fc}\u{fc}<"));
    assert!(after.contains(">\u{fc}\u{fc}<"));
}

#[test]
fn other_prefix_for_the_namespace() {
    let doc = "<doc:document xmlns:doc=\"http://schemas.openxmlformats.org/wordprocessingml/2006/main\">\
<doc:p><doc:r><doc:t>first</doc:t><doc:br/><doc:t>second</doc:t></doc:r></doc:p>\
<w:p><w:r><w:t>not in the namespace</w:t></w:r></w:p></doc:document>";
    let parts = package(doc);
    let outcome = XMLUtil::cat(DIR, "a.docx", &parts).unwrap();
    assert_eq!(outcome.lines, vec!["a.docx: first\nsecond".to_string()]);
}
