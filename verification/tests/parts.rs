use docxtools::error::DocxError;
use docxtools::file_util::FileUtil;
use docxtools::names::seed_aliases;
use docxtools::pattern::Span;
use docxtools::plan::ReplacementPlan;
use docxtools::reconstruct::RunCoord;
use docxtools::spans::RunSpan;
use docxtools::xml_util::XMLUtil;
use docxtools::zip_util::ZipUtil;

const MAIN: &str = "application/vnd.openxmlformats-officedocument.wordprocessingml.document.main+xml";

const CONTENT_TYPES: &str = "<Types xmlns=\"http://schemas.openxmlformats.org/package/2006/content-types\">\
<Default Extension=\"rels\" ContentType=\"application/vnd.openxmlformats-package.relationships+xml\"/>\
<Default Extension=\"xml\" ContentType=\"application/xml\"/>\
<Override PartName=\"/word/document.xml\" ContentType=\"application/vnd.openxmlformats-officedocument.wordprocessingml.document.main+xml\"/>\
<Override PartName=\"/word/styles.xml\" ContentType=\"application/vnd.openxmlformats-officedocument.wordprocessingml.styles+xml\"/>\
<Override PartName=\"word\\sub\\glossary.xml\" ContentType=\"application/vnd.openxmlformats-officedocument.wordprocessingml.document.main+xml\"/>\
</Types><Override PartName=\"/outside.xml\" ContentType=\"application/vnd.openxmlformats-officedocument.wordprocessingml.document.main+xml\"/>";

#[test]
fn normalize_path_replaces_backslashes() {
    assert_eq!(FileUtil::normalize_path("a\\b/c\\d.xml"), "a/b/c/d.xml");
    assert_eq!(FileUtil::normalize_path(""), "");
    assert_eq!(FileUtil::normalize_path("caf\u{e9}\\x"), "caf\u{e9}/x");
}

#[test]
fn get_sub_path_edge_cases() {
    assert_eq!(FileUtil::get_sub_path("C:\\tmp\\x\\word\\document.xml", "C:\\tmp\\x"), "word/document.xml");
    assert_eq!(FileUtil::get_sub_path("/a/b", "/a/b"), "/a/b");
    assert_eq!(FileUtil::get_sub_path("/a/b/", "/a/b"), "");
    assert_eq!(FileUtil::get_sub_path("/a/bc/d", "/a/b"), "/a/bc/d");
    assert_eq!(FileUtil::get_sub_path("x/y", ""), "x/y");
    assert_eq!(FileUtil::get_sub_path("/x/y", ""), "x/y");
}

#[test]
fn content_types_are_read() {
    let types = XMLUtil::get_content_types(CONTENT_TYPES.as_bytes()).unwrap();
    assert_eq!(
        types.defaults.get("application/vnd.openxmlformats-package.relationships+xml").map(|s| s.as_str()),
        Some("rels")
    );
    assert_eq!(types.defaults.get("application/xml").map(|s| s.as_str()), Some("xml"));
    assert_eq!(types.mappings.keys, vec!["word/document.xml", "word/styles.xml", "word/sub/glossary.xml"]);
    assert_eq!(types.mappings.get("word/document.xml").map(|s| s.as_str()), Some(MAIN));
    assert_eq!(types.mappings.get("outside.xml"), None);
}

#[test]
fn files_with_content_type_are_listed() {
    let (_, files) = XMLUtil::get_files_with_content_type(CONTENT_TYPES.as_bytes(), MAIN).unwrap();
    assert_eq!(files, vec!["word/document.xml", "word/sub/glossary.xml"]);
    let (_, none) = XMLUtil::get_files_with_content_type(CONTENT_TYPES.as_bytes(), "text/plain").unwrap();
    assert!(none.is_empty());
}

#[test]
fn relationship_parts_are_named() {
    let files = XMLUtil::get_rel_files(CONTENT_TYPES.as_bytes()).unwrap();
    assert_eq!(files, vec!["word/_rels/document.xml.rels", "word/sub/_rels/glossary.xml.rels"]);
    assert_eq!(
        XMLUtil::relationship_part_for("word/document.xml", "rels"),
        Some("word/_rels/document.xml.rels".to_string())
    );
    assert_eq!(XMLUtil::relationship_part_for("document.xml", "rels"), None);
}

#[test]
fn relationship_parts_need_their_extension() {
    let types = "<Types><Override PartName=\"/word/document.xml\" ContentType=\"application/vnd.openxmlformats-officedocument.wordprocessingml.document.main+xml\"/></Types>";
    match XMLUtil::get_rel_files(types.as_bytes()) {
        Err(DocxError::Undeclared { content_type }) => {
            assert_eq!(content_type, "application/vnd.openxmlformats-package.relationships+xml")
        }
        _ => panic!("expected an undeclared content type"),
    }
    let flat = "<Types><Default Extension=\"rels\" ContentType=\"application/vnd.openxmlformats-package.relationships+xml\"/>\
<Override PartName=\"/document.xml\" ContentType=\"application/vnd.openxmlformats-officedocument.wordprocessingml.document.main+xml\"/></Types>";
    match XMLUtil::get_rel_files(flat.as_bytes()) {
        Err(DocxError::Unplaced { path }) => assert_eq!(path, "document.xml"),
        _ => panic!("expected a part in no directory"),
    }
}

#[test]
fn tags_match_under_every_alias() {
    let mut aliases = seed_aliases();
    aliases.push(b"w".to_vec());
    aliases.push(b"doc".to_vec());
    assert!(XMLUtil::match_tag(b"w:p", &aliases, "p"));
    assert!(XMLUtil::match_tag(b"doc:p", &aliases, "p"));
    assert!(!XMLUtil::match_tag(b"x:p", &aliases, "p"));
    assert!(!XMLUtil::match_tag(b"p", &aliases, "p"));
    assert!(!XMLUtil::match_tag(b"w:pPr", &aliases, "p"));
    assert!(XMLUtil::match_tag(
        b"http://schemas.openxmlformats.org/wordprocessingml/2006/main:p",
        &aliases,
        "p"
    ));
    assert_eq!(
        XMLUtil::nsl_to_fqnames(&aliases, "br"),
        vec![
            b"http://schemas.openxmlformats.org/wordprocessingml/2006/main:br".to_vec(),
            b"w:br".to_vec(),
            b"doc:br".to_vec()
        ]
    );
}

#[test]
fn line_coords_go_from_run_to_run() {
    let coords = vec![
        RunCoord { para: 0, offset: 0, len: 7 },
        RunCoord { para: 1, offset: 0, len: 4 },
        RunCoord { para: 1, offset: 4, len: 4 },
        RunCoord { para: 1, offset: 9, len: 2 },
        RunCoord { para: 1, offset: 11, len: 0 },
        RunCoord { para: 1, offset: 10, len: 3 },
        RunCoord { para: 2, offset: 3, len: 1 },
    ];
    assert_eq!(
        XMLUtil::get_line_coords(1, &coords),
        vec![
            RunSpan { start: 0, len: 4, id: 1 },
            RunSpan { start: 4, len: 4, id: 2 },
            RunSpan { start: 9, len: 2, id: 3 },
        ]
    );
    assert_eq!(XMLUtil::get_line_coords(2, &coords), vec![RunSpan { start: 3, len: 1, id: 6 }]);
    assert!(XMLUtil::get_line_coords(3, &coords).is_empty());
}

#[test]
fn later_edits_of_a_run_use_original_positions() {
    let mut plan = ReplacementPlan::new();
    assert!(plan.is_empty());
    let tag = "And some some some more text";
    XMLUtil::replace_within_tag(&mut plan, 7, tag, 4, 8, "zzz");
    assert_eq!(plan.text_of(7).unwrap(), "And zzz some some more text");
    XMLUtil::replace_within_tag(&mut plan, 7, tag, 9, 13, "ABCDEF");
    assert_eq!(plan.text_of(7).unwrap(), "And zzz ABCDEF some more text");
    XMLUtil::replace_within_tag(&mut plan, 7, tag, 14, 18, "");
    assert_eq!(plan.text_of(7).unwrap(), "And zzz ABCDEF  more text");
    XMLUtil::replace_within_tag(&mut plan, 7, tag, 18, 28, "!");
    assert_eq!(plan.text_of(7).unwrap(), "And zzz ABCDEF !");
    assert_eq!(
        plan.entries[&7].corr,
        vec![0, 0, 0, 0, 0, 0, 0, -1, 0, 0, 0, 0, 2, 0, -1, -1, -1, -1, 0, -1, -1, -1, -1, -1, -1, -1, -1, -1]
    );
    assert!(!plan.is_empty());
    assert!(plan.text_of(6).is_none());
}

#[test]
fn a_match_is_handed_out_over_its_runs() {
    let para = "eventual resulting quotations";
    let spans = vec![
        RunSpan { start: 0, len: 11, id: 3 },
        RunSpan { start: 11, len: 4, id: 4 },
        RunSpan { start: 15, len: 14, id: 5 },
    ];
    let mut plan = ReplacementPlan::new();
    XMLUtil::apply_match(&mut plan, para, &spans, Span { start: 9, end: 18 }, "1234567890");
    assert_eq!(plan.text_of(3).unwrap(), "eventual 12");
    assert_eq!(plan.text_of(4).unwrap(), "3456");
    assert_eq!(plan.text_of(5).unwrap(), "7890 quotations");

    let mut plan = ReplacementPlan::new();
    XMLUtil::apply_match(&mut plan, para, &spans, Span { start: 9, end: 18 }, "1");
    assert_eq!(plan.text_of(3).unwrap(), "eventual 1");
    assert_eq!(plan.text_of(4).unwrap(), "");
    assert_eq!(plan.text_of(5).unwrap(), " quotations");

    let mut plan = ReplacementPlan::new();
    XMLUtil::apply_match(&mut plan, para, &spans, Span { start: 12, end: 14 }, "xyz");
    assert!(plan.text_of(3).is_none());
    assert_eq!(plan.text_of(4).unwrap(), "sxyzt");
    assert!(plan.text_of(5).is_none());

    let mut plan = ReplacementPlan::new();
    XMLUtil::apply_match(&mut plan, para, &spans, Span { start: 11, end: 15 }, "x");
    assert!(plan.text_of(3).is_none());
    assert_eq!(plan.text_of(4).unwrap(), "x");
    assert!(plan.text_of(5).is_none());

    let mut plan = ReplacementPlan::new();
    XMLUtil::apply_match(&mut plan, para, &spans, Span { start: 5, end: 5 }, "x");
    assert!(plan.is_empty());
}

#[test]
fn a_match_before_the_first_run_changes_nothing() {
    let spans = vec![RunSpan { start: 1, len: 3, id: 0 }, RunSpan { start: 5, len: 2, id: 1 }];
    let mut plan = ReplacementPlan::new();
    XMLUtil::apply_match(&mut plan, "\nabc\nde", &spans, Span { start: 0, end: 2 }, "x");
    assert!(plan.is_empty());
    XMLUtil::apply_match(&mut plan, "\nabc\nde", &spans, Span { start: 3, end: 6 }, "x");
    assert!(plan.is_empty());
    XMLUtil::apply_match(&mut plan, "\nabc\nde", &spans, Span { start: 4, end: 5 }, "x");
    assert!(plan.is_empty());
    XMLUtil::apply_match(&mut plan, "\nabc\nde", &spans, Span { start: 1, end: 2 }, "x");
    assert_eq!(plan.text_of(0).unwrap(), "xbc");
    XMLUtil::apply_match(&mut plan, "\nabc\nde", &spans, Span { start: 5, end: 7 }, "");
    assert_eq!(plan.text_of(1).unwrap(), "");
}

#[test]
fn archive_with_the_same_bytes_is_not_written() {
    assert!(ZipUtil::needs_writing(b"PK\x03\x04new", None));
    assert!(ZipUtil::needs_writing(b"PK\x03\x04new", Some(b"PK\x03\x04old")));
    assert!(ZipUtil::needs_writing(b"PK", Some(b"PK\x03")));
    assert!(!ZipUtil::needs_writing(b"PK\x03\x04new", Some(b"PK\x03\x04new")));
    assert!(!ZipUtil::needs_writing(b"", Some(b"")));
}
